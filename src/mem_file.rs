use vstd::prelude::*;
use vstd::slice::slice_subrange;

use crate::any::copy_range;
use crate::index::Index;

verus! {

/// Where entry `i` ends in a buffer of `total` bytes: at the next entry's offset, or at
/// the end of the buffer for the last entry.
pub open spec fn entry_end(offs: Seq<u32>, i: int, total: int) -> int {
    if i + 1 < offs.len() {
        offs[i + 1] as int
    } else {
        total
    }
}

/// The entries that the offsets `offs` cut out of `data`, in position order.
pub open spec fn entries(data: Seq<u8>, offs: Seq<u32>) -> Seq<Seq<u8>> {
    Seq::new(offs.len(), |i: int| data.subrange(offs[i] as int, entry_end(offs, i, data.len() as int)))
}

/// Whether the offsets `offs` cut `data` into entries: they never decrease, none lies
/// past the end, and every offset fits the index.
pub open spec fn consistent(data: Seq<u8>, offs: Seq<u32>) -> bool {
    &&& data.len() <= u32::MAX
    &&& forall|i: int, j: int| 0 <= i <= j < offs.len() ==> offs[i] <= offs[j]
    &&& forall|i: int| 0 <= i < offs.len() ==> offs[i] <= data.len()
}

/// The entries after applying `edits` to `start` in order. An edit `(None, b)` appends
/// `b` as a new entry, as `MemFile::insert` does; `(Some(p), b)` replaces entry `p` with
/// `b` when there is one, as `MemFile::replace` does.
pub open spec fn apply_edits(start: Seq<Seq<u8>>, edits: Seq<(Option<nat>, Seq<u8>)>) -> Seq<
    Seq<u8>,
>
    decreases edits.len(),
{
    if edits.len() == 0 {
        start
    } else {
        let s = apply_edits(start, edits.drop_last());
        let bytes = edits.last().1;
        match edits.last().0 {
            None => s.push(bytes),
            Some(p) => if p < s.len() {
                s.update(p as int, bytes)
            } else {
                s
            },
        }
    }
}

/// The bytes that `edits` last wrote to position `pos`, or what `start` held there when
/// no edit wrote to it.
pub open spec fn last_written(start: Seq<Seq<u8>>, edits: Seq<(Option<nat>, Seq<u8>)>, pos: int) -> Seq<
    u8,
>
    decreases edits.len(),
{
    if edits.len() == 0 {
        start[pos]
    } else {
        let before = apply_edits(start, edits.drop_last());
        let hit = match edits.last().0 {
            None => pos == before.len(),
            Some(p) => p == pos && pos < before.len(),
        };
        if hit {
            edits.last().1
        } else {
            last_written(start, edits.drop_last(), pos)
        }
    }
}

/// After any sequence of appends and replacements, every entry holds exactly the bytes
/// last written to its position; a replacement at one position leaves every other
/// position as it was.
pub proof fn lemma_entries_hold_last_write(start: Seq<Seq<u8>>, edits: Seq<(Option<nat>, Seq<u8>)>)
    ensures
        forall|pos: int|
            0 <= pos < apply_edits(start, edits).len() ==> #[trigger] apply_edits(start, edits)[pos]
                == last_written(start, edits, pos),
    decreases edits.len(),
{
    if edits.len() > 0 {
        lemma_entries_hold_last_write(start, edits.drop_last());
    }
}

/// The number of bytes in all of `entries` together.
pub open spec fn total_len(entries: Seq<Seq<u8>>) -> nat
    decreases entries.len(),
{
    if entries.len() == 0 {
        0
    } else {
        total_len(entries.drop_last()) + entries.last().len()
    }
}

proof fn lemma_total_len_prefix(entries: Seq<Seq<u8>>, i: int)
    requires
        0 <= i < entries.len(),
    ensures
        total_len(entries.take(i + 1)) == total_len(entries.take(i)) + entries[i].len(),
        total_len(entries.take(i + 1)) <= total_len(entries),
    decreases entries.len(),
{
    assert(entries.take(i + 1).drop_last() =~= entries.take(i));
    if i + 1 < entries.len() {
        lemma_total_len_prefix(entries.drop_last(), i);
        assert(entries.drop_last().take(i + 1) =~= entries.take(i + 1));
    } else {
        assert(entries.take(i + 1) =~= entries);
    }
}

/// An in-memory, line-addressable collection of byte entries: one buffer, and an index
/// of where each entry starts. Entries can be appended and replaced.
#[derive(Debug)]
pub struct MemFile {
    data: Vec<u8>,
    index: Index,
}

impl View for MemFile {
    type V = Seq<Seq<u8>>;

    /// The entries, in position order.
    closed spec fn view(&self) -> Seq<Seq<u8>> {
        entries(self.data@, self.index@)
    }
}

impl MemFile {
    #[verifier::type_invariant]
    spec fn inv(self) -> bool {
        consistent(self.data@, self.index@)
    }

    /// The number of bytes in the buffer.
    pub closed spec fn spec_raw_len(&self) -> nat {
        self.data@.len()
    }

    /// An empty collection.
    pub fn new() -> (r: MemFile)
        ensures
            r@ == Seq::<Seq<u8>>::empty(),
            r.spec_raw_len() == 0,
    {
        let r = MemFile { data: Vec::new(), index: Index::empty() };
        assert(r@ =~= Seq::<Seq<u8>>::empty());
        r
    }

    /// An empty collection with room for `capacity` bytes.
    pub fn with_capacity(capacity: usize) -> (r: MemFile)
        ensures
            r@ == Seq::<Seq<u8>>::empty(),
            r.spec_raw_len() == 0,
    {
        let r = MemFile { data: Vec::with_capacity(capacity), index: Index::empty() };
        assert(r@ =~= Seq::<Seq<u8>>::empty());
        r
    }

    /// A collection made of a buffer and an index of where its entries start.
    pub fn new_raw(data: Vec<u8>, index: Index) -> (r: MemFile)
        requires
            consistent(data@, index@),
        ensures
            r@ == entries(data@, index@),
            r.spec_raw_len() == data@.len(),
    {
        MemFile { data, index }
    }

    /// Whether `index` cuts `data` into entries: its offsets never decrease, none lies
    /// past the end of `data`, and `data` is short enough for 32-bit offsets.
    pub fn check_consistent(data: &[u8], index: &Index) -> (r: bool)
        ensures
            r == consistent(data@, index@),
    {
        let len = data.len();
        if len > u32::MAX as usize {
            return false;
        }
        let offs = index.offsets();
        let n = offs.len();
        let mut i: usize = 0;
        while i < n
            invariant
                i <= n == offs@.len() == index@.len(),
                offs@ == index@,
                len == data@.len() <= u32::MAX,
                forall|a: int, b: int| 0 <= a <= b < i ==> offs@[a] <= offs@[b],
                forall|a: int| 0 <= a < i ==> offs@[a] <= len,
            decreases n - i,
        {
            if offs[i] as usize > len {
                return false;
            }
            if i > 0 && offs[i - 1] > offs[i] {
                return false;
            }
            assert forall|a: int, b: int| 0 <= a <= b < i + 1 implies offs@[a] <= offs@[b] by {
                if b == i && a < i {
                    assert(offs@[a] <= offs@[i - 1]);
                }
            }
            i = i + 1;
        }
        true
    }

    /// The offsets at which the entries start.
    pub closed spec fn spec_offsets(&self) -> Seq<u32> {
        self.index@
    }

    /// The buffer that holds every entry, in position order.
    pub fn raw_data(&self) -> (r: &[u8])
        ensures
            r@.len() == self.spec_raw_len(),
            entries(r@, self.spec_offsets()) == self@,
            consistent(r@, self.spec_offsets()),
    {
        proof {
            use_type_invariant(self);
        }
        self.data.as_slice()
    }

    /// The index of where each entry starts.
    pub fn index(&self) -> (r: &Index)
        ensures
            r@ == self.spec_offsets(),
    {
        &self.index
    }

    /// Appends `data` as a new entry and returns its position.
    pub fn insert(&mut self, data: &[u8]) -> (r: usize)
        requires
            old(self).spec_raw_len() + data@.len() <= u32::MAX,
        ensures
            r == old(self)@.len(),
            final(self)@ == old(self)@.push(data@),
            final(self).spec_raw_len() == old(self).spec_raw_len() + data@.len(),
    {
        proof {
            use_type_invariant(&*self);
        }
        let ghost old_data = self.data@;
        let ghost old_offs = self.index@;
        let pos = self.index.len();
        let start = self.data.len();
        let mut index = Index::empty();
        std::mem::swap(&mut index, &mut self.index);
        let mut buf: Vec<u8> = Vec::new();
        std::mem::swap(&mut buf, &mut self.data);
        index.push_offset(start as u32);
        copy_range(data, 0, data.len(), &mut buf);
        self.data = buf;
        self.index = index;
        proof {
            assert(data@.subrange(0, data@.len() as int) =~= data@);
            let nd = self.data@;
            let no = self.index@;
            assert forall|i: int| 0 <= i < old_offs.len() implies nd.subrange(
                no[i] as int,
                entry_end(no, i, nd.len() as int),
            ) =~= old_data.subrange(old_offs[i] as int, entry_end(old_offs, i, old_data.len() as int)) by {
            }
            assert(nd.subrange(no[pos as int] as int, entry_end(no, pos as int, nd.len() as int)) =~= data@);
            assert(self@ =~= old(self)@.push(data@));
        }
        pos
    }

    /// Appends each of `entries` as a new entry, in order.
    pub fn extend(&mut self, entries: &[Vec<u8>])
        requires
            old(self).spec_raw_len() + total_len(entries@.map_values(|v: Vec<u8>| v@)) <= u32::MAX,
        ensures
            final(self)@ == old(self)@ + entries@.map_values(|v: Vec<u8>| v@),
    {
        let ghost views = entries@.map_values(|v: Vec<u8>| v@);
        let mut i: usize = 0;
        assert(views.take(0) =~= Seq::<Seq<u8>>::empty());
        assert(old(self)@ + views.take(0) =~= old(self)@);
        while i < entries.len()
            invariant
                i <= entries@.len() == views.len(),
                views == entries@.map_values(|v: Vec<u8>| v@),
                self@ == old(self)@ + views.take(i as int),
                self.spec_raw_len() == old(self).spec_raw_len() + total_len(views.take(i as int)),
                old(self).spec_raw_len() + total_len(views) <= u32::MAX,
            decreases entries@.len() - i,
        {
            proof {
                lemma_total_len_prefix(views, i as int);
            }
            self.insert(entries[i].as_slice());
            assert(self@ =~= old(self)@ + views.take(i + 1));
            i = i + 1;
        }
        assert(views.take(i as int) =~= views);
    }

    /// Replaces the entry at `pos` with `data`, which may differ in length, and moves
    /// the offsets of every later entry by the difference. `None` when there is no
    /// entry at `pos`.
    pub fn replace(&mut self, pos: usize, data: &[u8]) -> (r: Option<()>)
        requires
            pos < old(self)@.len() ==> old(self).spec_raw_len() - old(self)@[pos as int].len()
                + data@.len() <= u32::MAX,
        ensures
            pos < old(self)@.len() ==> {
                &&& r is Some
                &&& final(self)@ == old(self)@.update(pos as int, data@)
                &&& final(self).spec_raw_len() == old(self).spec_raw_len() - old(
                    self,
                )@[pos as int].len() + data@.len()
            },
            pos >= old(self)@.len() ==> r is None && final(self)@ == old(self)@,
    {
        proof {
            use_type_invariant(&*self);
        }
        let (start, end) = match self.index_range(pos) {
            Some(p) => p,
            None => return None,
        };
        let ghost d = self.data@;
        let ghost o = self.index@;
        let len = self.data.len();
        let dlen = data.len();
        let mut new_data: Vec<u8> = Vec::new();
        copy_range(self.data.as_slice(), 0, start, &mut new_data);
        copy_range(data, 0, dlen, &mut new_data);
        copy_range(self.data.as_slice(), end, len, &mut new_data);
        let ghost nd = new_data@;
        assert(nd.len() == start + dlen + (len - end));
        let mut index = Index::empty();
        std::mem::swap(&mut index, &mut self.index);
        let n = index.len();
        let mut i: usize = pos + 1;
        while i < n
            invariant
                pos < n == o.len(),
                start == o[pos as int],
                end == entry_end(o, pos as int, d.len() as int),
                consistent(d, o),
                start + dlen + (len - end) <= u32::MAX,
                len == d.len(),
                pos + 1 <= i <= n,
                index@.len() == n,
                forall|k: int| 0 <= k <= pos ==> index@[k] == o[k],
                forall|k: int| pos < k < i ==> index@[k] == o[k] - end + start + dlen,
                forall|k: int| i <= k < n ==> index@[k] == o[k],
            decreases n - i,
        {
            let v = match index.get(i) {
                Ok(v) => v,
                Err(_) => 0,
            };
            assert(o[i as int] >= end);
            index.set_offset(i, (v as usize - end + start + dlen) as u32);
            i = i + 1;
        }
        self.data = new_data;
        let ghost no = index@;
        proof {
            assert forall|a: int, b: int| 0 <= a <= b < no.len() implies no[a] <= no[b] by {
                if b > pos {
                    assert(o[pos + 1] <= o[b]);
                    if a <= pos {
                        assert(o[a] <= o[pos as int]);
                    }
                }
            }
            assert forall|k: int| 0 <= k < no.len() implies no[k] <= nd.len() by {
                if k > pos {
                    assert(o[k] <= d.len());
                    assert(o[k] >= end);
                }
            }
        }
        self.index = index;
        proof {
            let ne = entries(nd, no);
            let oe = entries(d, o);
            assert forall|k: int| 0 <= k < n implies ne[k] == oe.update(pos as int, data@)[k] by {
                if k < pos {
                    assert(o[k + 1] <= o[pos as int]);
                    assert(ne[k] =~= oe[k]);
                } else if k == pos {
                    assert(ne[k] =~= data@);
                } else {
                    assert(o[k] >= end);
                    if k + 1 < n {
                        assert(o[k + 1] >= o[k]);
                    }
                    assert(ne[k] =~= oe[k]);
                }
            }
            assert(self@ =~= old(self)@.update(pos as int, data@));
        }
        Some(())
    }

    /// The entry at `pos`, or `None` when there is none.
    pub fn get(&self, pos: usize) -> (r: Option<&[u8]>)
        ensures
            pos < self@.len() ==> (r matches Some(s) && s@ == self@[pos as int]),
            pos >= self@.len() ==> r is None,
    {
        let (start, end) = match self.index_range(pos) {
            Some(p) => p,
            None => return None,
        };
        assert(self@[pos as int] == self.data@.subrange(start as int, end as int));
        Some(slice_subrange(self.data.as_slice(), start, end))
    }

    /// The entry at `pos`, which must exist.
    pub fn get_unchecked(&self, pos: usize) -> (r: &[u8])
        requires
            pos < self@.len(),
        ensures
            r@ == self@[pos as int],
    {
        let (start, end) = self.index_range_unchecked(pos);
        assert(self@[pos as int] == self.data@.subrange(start as int, end as int));
        slice_subrange(self.data.as_slice(), start, end)
    }

    /// Where the entry at `pos` starts and ends in the buffer.
    fn index_range(&self, pos: usize) -> (r: Option<(usize, usize)>)
        ensures
            pos < self.index@.len() ==> (r matches Some(p) && p.0 == self.index@[pos as int]
                && p.1 == entry_end(self.index@, pos as int, self.data@.len() as int)),
            pos >= self.index@.len() ==> r is None,
            r matches Some(p) ==> p.0 <= p.1 <= self.data@.len(),
    {
        if pos >= self.index.len() {
            return None;
        }
        Some(self.index_range_unchecked(pos))
    }

    /// Where the entry at `pos`, which must exist, starts and ends in the buffer.
    fn index_range_unchecked(&self, pos: usize) -> (r: (usize, usize))
        requires
            pos < self.index@.len(),
        ensures
            r.0 == self.index@[pos as int],
            r.1 == entry_end(self.index@, pos as int, self.data@.len() as int),
            r.0 <= r.1 <= self.data@.len(),
    {
        proof {
            use_type_invariant(self);
        }
        let start = match self.index.get(pos) {
            Ok(v) => v as usize,
            Err(_) => 0,
        };
        let n = self.index.len();
        if pos < n - 1 {
            let next_pos = pos + 1;
            let next = match self.index.get(next_pos) {
                Ok(v) => v as usize,
                Err(_) => 0,
            };
            (start, next)
        } else {
            (start, self.raw_len())
        }
    }

    /// The entries in position order.
    pub fn iter(&self) -> (r: MemFileIter<'_>)
        ensures
            r.file() == self,
            r.pos() == 0,
    {
        MemFileIter::new(self)
    }

    /// The number of entries.
    pub fn len(&self) -> (r: usize)
        ensures
            r == self@.len(),
    {
        self.index.len()
    }

    /// The number of bytes in the buffer.
    pub fn raw_len(&self) -> (r: usize)
        ensures
            r == self.spec_raw_len(),
    {
        self.data.len()
    }
}

impl Clone for MemFile {
    /// A copy of the buffer and the index.
    fn clone(&self) -> (r: MemFile)
        ensures
            r@ == self@,
    {
        proof {
            use_type_invariant(self);
        }
        let mut data: Vec<u8> = Vec::new();
        copy_range(self.data.as_slice(), 0, self.data.len(), &mut data);
        assert(data@ =~= self.data@);
        MemFile { data, index: self.index.copy() }
    }
}

impl Default for MemFile {
    /// An empty collection.
    fn default() -> (r: MemFile)
        ensures
            r@ == Seq::<Seq<u8>>::empty(),
    {
        MemFile::new()
    }
}

/// A walk over the entries of a `MemFile`, in position order.
pub struct MemFileIter<'a> {
    file: &'a MemFile,
    pos: usize,
}

impl<'a> MemFileIter<'a> {
    /// The collection walked over.
    pub closed spec fn file(&self) -> &'a MemFile {
        self.file
    }

    /// The position of the next entry.
    pub closed spec fn pos(&self) -> int {
        self.pos as int
    }

    fn new(file: &'a MemFile) -> (r: MemFileIter<'a>)
        ensures
            r.file() == file,
            r.pos() == 0,
    {
        MemFileIter { file, pos: 0 }
    }

    /// The next entry, or `None` after the last.
    pub fn next(&mut self) -> (r: Option<&'a [u8]>)
        ensures
            final(self).file() == old(self).file(),
            old(self).pos() < old(self).file()@.len() ==> {
                &&& r matches Some(s) && s@ == old(self).file()@[old(self).pos()]
                &&& final(self).pos() == old(self).pos() + 1
            },
            old(self).pos() >= old(self).file()@.len() ==> r is None && final(self).pos() == old(
                self,
            ).pos(),
    {
        let _count = self.file.len();
        let content = match self.file.get(self.pos) {
            Some(c) => c,
            None => return None,
        };
        self.pos = self.pos + 1;
        Some(content)
    }
}

} // verus!
