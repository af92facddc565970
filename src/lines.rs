use vstd::prelude::*;

verus! {

/// The line break that ends a line.
pub const NEWLINE: u8 = 10;

/// Whether a line starts at position `i` of `s`: at the start, or right after a line break.
pub open spec fn is_line_start(s: Seq<u8>, i: int) -> bool {
    i == 0 || s[i - 1] == NEWLINE
}

/// The positions of `s` at which a line starts, in increasing order.
pub open spec fn line_starts(s: Seq<u8>) -> Seq<int>
    decreases s.len(),
{
    if s.len() == 0 {
        Seq::empty()
    } else {
        let p = line_starts(s.drop_last());
        if is_line_start(s, s.len() - 1) {
            p.push(s.len() - 1)
        } else {
            p
        }
    }
}

/// The lines of `s`: the pieces between line breaks, without the breaks. An empty
/// piece after a final line break is not a line.
pub open spec fn lines_of(s: Seq<u8>) -> Seq<Seq<u8>>
    decreases s.len(),
{
    if s.len() == 0 {
        Seq::empty()
    } else {
        let p = lines_of(s.drop_last());
        let c = s.last();
        if is_line_start(s, s.len() - 1) {
            p.push(
                if c == NEWLINE {
                    Seq::empty()
                } else {
                    seq![c]
                },
            )
        } else if c == NEWLINE {
            p
        } else {
            p.update(p.len() - 1, p.last().push(c))
        }
    }
}

/// `b` without its final line break, if it ends with one.
pub open spec fn strip_newline(b: Seq<u8>) -> Seq<u8> {
    if b.len() > 0 && b.last() == NEWLINE {
        b.drop_last()
    } else {
        b
    }
}

/// Where the bytes of line `n` end in a source of `total` bytes whose content follows
/// a persisted prefix of `prefix` bytes: at the start of the next line, or at the end.
pub open spec fn line_end(offs: Seq<u32>, prefix: int, n: int, total: int) -> int {
    if n + 1 < offs.len() {
        prefix + offs[n + 1]
    } else {
        total
    }
}

/// Line `n` of `source` under the line offsets `offs`, whose content follows a
/// persisted prefix of `prefix` bytes: the bytes from its offset to the next line's
/// offset, or to the end for the last line, without the final line break. `None`
/// when that span does not lie within the source.
pub open spec fn line_bytes(source: Seq<u8>, offs: Seq<u32>, prefix: int, n: int) -> Option<
    Seq<u8>,
> {
    let a = prefix + offs[n];
    let b = line_end(offs, prefix, n, source.len() as int);
    if a <= b <= source.len() {
        Some(strip_newline(source.subrange(a, b)))
    } else {
        None
    }
}

/// How many bytes reading line `n` from position `pos` consumes: the distance from
/// its offset to the next line's, or the rest of the source for the last line. `None`
/// when the next line starts before it, or the source ends first.
pub open spec fn current_span(source: Seq<u8>, offs: Seq<u32>, pos: int, n: int) -> Option<int> {
    if n + 1 < offs.len() {
        let k = offs[n + 1] - offs[n];
        if 0 <= k && pos + k <= source.len() {
            Some(k)
        } else {
            None
        }
    } else if pos <= source.len() {
        Some(source.len() - pos)
    } else {
        None
    }
}

/// Whether every line of `source` under `offs` and `prefix` lies within the source.
pub open spec fn all_lines_readable(source: Seq<u8>, offs: Seq<u32>, prefix: int) -> bool {
    forall|n: int| 0 <= n < offs.len() ==> (#[trigger] line_bytes(source, offs, prefix, n)) is Some
}

pub proof fn lemma_line_starts_step(s: Seq<u8>, i: int)
    requires
        0 <= i < s.len(),
    ensures
        line_starts(s.subrange(0, i + 1)) == if is_line_start(s, i) {
            line_starts(s.subrange(0, i)).push(i)
        } else {
            line_starts(s.subrange(0, i))
        },
{
    let t = s.subrange(0, i + 1);
    assert(t.drop_last() =~= s.subrange(0, i));
    if i > 0 {
        assert(t[i - 1] == s[i - 1]);
    }
}

/// The line starts of `s` and its lines agree: the span from one start to the next,
/// or to the end, is the line with its break.
proof fn lemma_starts_and_lines(s: Seq<u8>)
    ensures
        line_starts(s).len() == lines_of(s).len(),
        s.len() > 0 ==> line_starts(s).len() > 0 && line_starts(s)[0] == 0,
        forall|n: int|
            0 <= n < line_starts(s).len() ==> 0 <= #[trigger] line_starts(s)[n] < s.len(),
        forall|n: int, m: int|
            0 <= n < m < line_starts(s).len() ==> line_starts(s)[n] < line_starts(s)[m],
        forall|n: int|
            0 <= n < line_starts(s).len() ==> strip_newline(
                s.subrange(
                    line_starts(s)[n],
                    if n + 1 < line_starts(s).len() {
                        line_starts(s)[n + 1]
                    } else {
                        s.len() as int
                    },
                ),
            ) == #[trigger] lines_of(s)[n],
    decreases s.len(),
{
    if s.len() > 0 {
        let p = s.drop_last();
        lemma_starts_and_lines(p);
        let sp = line_starts(p);
        let lp = lines_of(p);
        let st = line_starts(s);
        let ls = lines_of(s);
        let m = s.len() - 1;
        let c = s.last();
        let endp = |n: int|
            if n + 1 < sp.len() {
                sp[n + 1]
            } else {
                p.len() as int
            };
        let ends = |n: int|
            if n + 1 < st.len() {
                st[n + 1]
            } else {
                s.len() as int
            };
        assert forall|n: int| 0 <= n < st.len() implies strip_newline(
            s.subrange(st[n], ends(n)),
        ) == #[trigger] ls[n] by {
            if n < sp.len() {
                let a = sp[n];
                if is_line_start(s, m) || n + 1 < sp.len() {
                    assert(s.subrange(a, ends(n)) =~= p.subrange(a, endp(n)));
                } else {
                    let x = p.subrange(a, m);
                    assert(s.subrange(a, ends(n)) =~= x.push(c));
                    if x.len() > 0 {
                        assert(x.last() == s[m - 1]);
                    }
                    if c == NEWLINE {
                        assert(x.push(c).drop_last() =~= x);
                    } else {
                        assert(strip_newline(x) == x);
                    }
                }
            } else {
                assert(s.subrange(st[n], ends(n)) =~= seq![c]);
                if c == NEWLINE {
                    assert(seq![c].drop_last() =~= Seq::<u8>::empty());
                }
            }
        }
    }
}

/// Reading line `n` through the offsets that a scan of `s` records gives the `n`-th
/// line of `s`, for every `n` below the number of lines.
pub proof fn lemma_lines_read_back(s: Seq<u8>, offs: Seq<u32>)
    requires
        offs.len() == line_starts(s).len(),
        forall|k: int| 0 <= k < offs.len() ==> offs[k] as int == line_starts(s)[k],
    ensures
        offs.len() == lines_of(s).len(),
        forall|n: int|
            0 <= n < offs.len() ==> #[trigger] line_bytes(s, offs, 0, n) == Some(lines_of(s)[n]),
{
    lemma_starts_and_lines(s);
    let st = line_starts(s);
    assert forall|n: int| 0 <= n < offs.len() implies #[trigger] line_bytes(s, offs, 0, n) == Some(
        lines_of(s)[n],
    ) by {
        assert(st[n] == offs[n]);
        if n + 1 < offs.len() {
            assert(st[n + 1] == offs[n + 1]);
            assert(st[n] < st[n + 1]);
        }
    }
}

} // verus!
