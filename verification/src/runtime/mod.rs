//! Helpers the generated code calls at run time: reading a number of bytes,
//! reading up to a delimiter, and attaching the failing node to errors.
//!
//! The reading logic is written against `ByteSource`, an in-memory stream; the
//! delimiter search is a step machine (`DelimitedRead`) so that the same decisions
//! can drive any buffered reader.
use vstd::prelude::*;

pub mod error;
pub mod lowheap_error;

verus! {

// ## Sources
/// A stream of bytes held in memory, read from the front.
pub struct ByteSource {
    pub data: Vec<u8>,
    pub pos: usize,
}

/// Reading ran out of data before the requested length.
#[derive(PartialEq, Eq, Structural, Clone, Copy, Debug)]
pub enum ReadFailure {
    UnexpectedEof,
}

impl ByteSource {
    pub open spec fn wf(&self) -> bool {
        self.pos <= self.data.len()
    }

    /// The bytes not read yet.
    pub open spec fn rest(&self) -> Seq<u8> {
        self.data@.subrange(self.pos as int, self.data.len() as int)
    }

    pub fn new(data: Vec<u8>) -> (out: ByteSource)
        ensures
            out.wf(),
            out.data@ == data@,
            out.pos == 0,
    {
        ByteSource { data, pos: 0 }
    }

    /// Appends bytes up to and including the first `byte`, or to the end.
    pub fn read_until(&mut self, byte: u8, out: &mut Vec<u8>)
        requires
            old(self).wf(),
        ensures
            final(self).wf(),
            final(self).data@ == old(self).data@,
            final(self).pos == first_from(old(self).data@, old(self).pos as int, byte),
            final(out)@ == old(out)@ + old(self).data@.subrange(
                old(self).pos as int,
                final(self).pos as int,
            ),
    {
        let start = self.pos;
        let mut i = self.pos;
        while i < self.data.len()
            invariant
                start <= i <= self.data.len(),
                self.pos == start,
                forall|k: int| start <= k < i ==> self.data@[k] != byte,
                out@ == old(out)@ + self.data@.subrange(start as int, i as int),
                self.data@ == old(self).data@,
                self.pos == old(self).pos,
            decreases self.data.len() - i,
        {
            let b = self.data[i];
            out.push(b);
            proof {
                assert(self.data@.subrange(start as int, i + 1) =~= self.data@.subrange(start as int, i as int).push(b));
            }
            i = i + 1;
            if b == byte {
                proof {
                    lemma_first_from_found(self.data@, start as int, byte, (i - 1) as int);
                }
                self.pos = i;
                return;
            }
        }
        proof {
            lemma_first_from_none(self.data@, start as int, byte);
        }
        self.pos = i;
    }

    /// Reads up to `want` bytes (fewer only at the end of the data).
    pub fn read_some(&mut self, want: usize) -> (got: Vec<u8>)
        requires
            old(self).wf(),
        ensures
            final(self).wf(),
            final(self).data@ == old(self).data@,
            got@.len() == min_usize(want, (old(self).data.len() - old(self).pos) as usize),
            final(self).pos == old(self).pos + got@.len(),
            got@ == old(self).data@.subrange(old(self).pos as int, final(self).pos as int),
    {
        let avail = self.data.len() - self.pos;
        let n = if want < avail {
            want
        } else {
            avail
        };
        let mut got: Vec<u8> = Vec::new();
        let mut i: usize = 0;
        while i < n
            invariant
                i <= n,
                n <= self.data.len() - self.pos,
                self.wf(),
                self.data@ == old(self).data@,
                self.pos == old(self).pos,
                got@ == self.data@.subrange(self.pos as int, self.pos + i),
            decreases n - i,
        {
            got.push(self.data[self.pos + i]);
            i = i + 1;
            proof {
                assert(got@ =~= self.data@.subrange(self.pos as int, self.pos + i));
            }
        }
        self.pos = self.pos + n;
        got
    }
}

pub open spec fn min_usize(a: usize, b: usize) -> usize {
    if a < b {
        a
    } else {
        b
    }
}

/// The position just after the first `byte` at or after `p`, or the end.
pub open spec fn first_from(d: Seq<u8>, p: int, byte: u8) -> int
    decreases d.len() - p,
{
    if p >= d.len() {
        d.len() as int
    } else if d[p] == byte {
        p + 1
    } else {
        first_from(d, p + 1, byte)
    }
}

proof fn lemma_first_from_found(d: Seq<u8>, p: int, byte: u8, k: int)
    requires
        0 <= p <= k < d.len(),
        d[k] == byte,
        forall|j: int| p <= j < k ==> d[j] != byte,
    ensures
        first_from(d, p, byte) == k + 1,
    decreases k - p,
{
    if p < k {
        lemma_first_from_found(d, p + 1, byte, k);
    }
}

proof fn lemma_first_from_none(d: Seq<u8>, p: int, byte: u8)
    requires
        0 <= p <= d.len(),
        forall|j: int| p <= j < d.len() ==> d[j] != byte,
    ensures
        first_from(d, p, byte) == d.len(),
    decreases d.len() - p,
{
    if p < d.len() {
        lemma_first_from_none(d, p + 1, byte);
    }
}

pub proof fn lemma_first_from_bounds(d: Seq<u8>, p: int, byte: u8)
    requires
        0 <= p <= d.len(),
    ensures
        p <= first_from(d, p, byte) <= d.len(),
        first_from(d, p, byte) < d.len() ==> p < first_from(d, p, byte),
        p < d.len() ==> p < first_from(d, p, byte),
        first_from(d, p, byte) > p && first_from(d, p, byte) <= d.len() && d[first_from(d, p, byte)
            - 1] == byte || first_from(d, p, byte) == d.len(),
    decreases d.len() - p,
{
    if p < d.len() && d[p] != byte {
        lemma_first_from_bounds(d, p + 1, byte);
    }
}

// ## Fixed-length reads
/// Reads `len` bytes, or everything that is left when `len` is 0 (a read of the
/// remaining data).  Fails, consuming the rest, when fewer than `len` bytes are
/// left.
pub fn read(source: &mut ByteSource, len: usize) -> (out: Result<Vec<u8>, ReadFailure>)
    requires
        old(source).wf(),
    ensures
        final(source).wf(),
        final(source).data@ == old(source).data@,
        len == 0 ==> out == Ok::<Vec<u8>, ReadFailure>(out->Ok_0) && out->Ok_0@ == old(source).rest()
            && final(source).pos == final(source).data.len(),
        len > 0 && len <= old(source).rest().len() ==> out is Ok && out->Ok_0@ == old(
            source,
        ).rest().take(len as int) && final(source).pos == old(source).pos + len,
        len > old(source).rest().len() ==> out == Err::<Vec<u8>, ReadFailure>(
            ReadFailure::UnexpectedEof,
        ) && final(source).pos == final(source).data.len(),
{
    let remaining = source.data.len() - source.pos;
    if len == 0 {
        let got = source.read_some(remaining);
        assert(got@ =~= old(source).rest());
        return Ok(got);
    }
    if len > remaining {
        let _ = source.read_some(remaining);
        return Err(ReadFailure::UnexpectedEof);
    }
    let got = source.read_some(len);
    assert(got@ =~= old(source).rest().take(len as int));
    Ok(got)
}

// ## Delimited reads
/// `delim` occurs in `data` starting at `i`.
pub open spec fn delim_at(data: Seq<u8>, i: int, delim: Seq<u8>) -> bool {
    &&& 0 <= i
    &&& i + delim.len() <= data.len()
    &&& data.subrange(i, i + delim.len()) == delim
}

/// `i` is the first occurrence of `delim` in `data` at or after `p`.
pub open spec fn first_delim(data: Seq<u8>, p: int, i: int, delim: Seq<u8>) -> bool {
    &&& p <= i
    &&& delim_at(data, i, delim)
    &&& forall|j: int| p <= j < i ==> !#[trigger] delim_at(data, j, delim)
}

/// What a read up to `delim` from position `p` of `data` gives, and where it
/// stops: the bytes before the first occurrence of the delimiter, which is
/// consumed; with no occurrence, everything that is left.
pub open spec fn delimited_read(data: Seq<u8>, p: int, delim: Seq<u8>) -> (Seq<u8>, int) {
    if exists|i: int| first_delim(data, p, i, delim) {
        let i = choose|i: int| first_delim(data, p, i, delim);
        (data.subrange(p, i), i + delim.len())
    } else {
        (data.subrange(p, data.len() as int), data.len() as int)
    }
}

/// `s` ends with `d`.
pub open spec fn ends_with(s: Seq<u8>, d: Seq<u8>) -> bool {
    s.len() >= d.len() && s.subrange(s.len() - d.len(), s.len() as int) == d
}

proof fn lemma_first_delim_unique(data: Seq<u8>, p: int, i: int, k: int, delim: Seq<u8>)
    requires
        first_delim(data, p, i, delim),
        first_delim(data, p, k, delim),
    ensures
        i == k,
{
    if i < k {
        assert(!delim_at(data, i, delim));
    } else if k < i {
        assert(!delim_at(data, k, delim));
    }
}

/// What a delimited read needs from the stream next.
#[derive(PartialEq, Eq, Structural, Clone, Copy, Debug)]
pub enum DelimAction {
    /// Append to the output everything up to and including this byte (or to the
    /// end of the stream), then call `until_done` with what was appended.
    ReadUntil(u8),
    /// The read is over; take `out`.
    Finished,
}

/// The state of a read up to a delimiter.  Every occurrence of the delimiter
/// ends with its last byte, so the read goes from one last byte to the next and
/// stops at the first place where what was read ends with the whole delimiter,
/// or at the end of the stream.
pub struct DelimitedRead {
    pub delimiter: Vec<u8>,
    pub out: Vec<u8>,
    pub action: DelimAction,
}

impl DelimitedRead {
    pub open spec fn wf(&self) -> bool {
        &&& self.delimiter.len() >= 1
        &&& self.action matches DelimAction::ReadUntil(b) ==> b == self.delimiter@.last()
    }

    /// Starts a read up to `delimiter`.
    pub fn new(delimiter: &[u8]) -> (out: DelimitedRead)
        requires
            delimiter.len() >= 1,
        ensures
            out.wf(),
            out.delimiter@ == delimiter@,
            out.out@ == Seq::<u8>::empty(),
            out.action == DelimAction::ReadUntil(delimiter@.last()),
    {
        let mut d: Vec<u8> = Vec::new();
        let mut i: usize = 0;
        while i < delimiter.len()
            invariant
                i <= delimiter.len(),
                d@ == delimiter@.take(i as int),
            decreases delimiter.len() - i,
        {
            d.push(delimiter[i]);
            i = i + 1;
            proof {
                assert(d@ =~= delimiter@.take(i as int));
            }
        }
        assert(d@ =~= delimiter@);
        let last = delimiter[delimiter.len() - 1];
        DelimitedRead { delimiter: d, out: Vec::new(), action: DelimAction::ReadUntil(last) }
    }

    /// The output ends with the whole delimiter.
    fn out_ends_with_delimiter(&self) -> (out: bool)
        requires
            self.wf(),
        ensures
            out == ends_with(self.out@, self.delimiter@),
    {
        let n = self.out.len();
        let m = self.delimiter.len();
        if n < m {
            return false;
        }
        let mut i: usize = 0;
        while i < m
            invariant
                i <= m == self.delimiter.len(),
                m <= n == self.out.len(),
                forall|k: int| 0 <= k < i ==> self.out@[n - m + k] == self.delimiter@[k],
            decreases m - i,
        {
            if self.out[n - m + i] != self.delimiter[i] {
                assert(self.out@.subrange(n - m, n as int)[i as int] != self.delimiter@[i as int]);
                return false;
            }
            i = i + 1;
        }
        assert(self.out@.subrange(n - m, n as int) =~= self.delimiter@);
        true
    }

    /// After a `ReadUntil`: `got` are the bytes appended.  When they end with the
    /// byte asked for and the output now ends with the delimiter, the delimiter is
    /// taken off and the read is over; when they don't, the stream has ended and
    /// the read is over with everything read.
    pub fn until_done(&mut self, got: &[u8])
        requires
            old(self).wf(),
            old(self).action is ReadUntil,
        ensures
            final(self).wf(),
            final(self).delimiter@ == old(self).delimiter@,
            ({
                let out1 = old(self).out@ + got@;
                let d = old(self).delimiter@;
                if got.len() > 0 && got@.last() == d.last() {
                    if ends_with(out1, d) {
                        &&& final(self).out@ == out1.subrange(0, out1.len() - d.len())
                        &&& final(self).action == DelimAction::Finished
                    } else {
                        &&& final(self).out@ == out1
                        &&& final(self).action == old(self).action
                    }
                } else {
                    &&& final(self).out@ == out1
                    &&& final(self).action == DelimAction::Finished
                }
            }),
    {
        let mut i: usize = 0;
        let ghost out0 = self.out@;
        while i < got.len()
            invariant
                i <= got.len(),
                self.out@ == out0 + got@.take(i as int),
                self.wf(),
                self.delimiter@ == old(self).delimiter@,
                self.action == old(self).action,
            decreases got.len() - i,
        {
            self.out.push(got[i]);
            i = i + 1;
            proof {
                assert(self.out@ =~= out0 + got@.take(i as int));
            }
        }
        assert(got@.take(got.len() as int) =~= got@);
        let last = self.delimiter[self.delimiter.len() - 1];
        if got.len() > 0 && got[got.len() - 1] == last {
            if self.out_ends_with_delimiter() {
                let keep = self.out.len() - self.delimiter.len();
                let ghost out1 = self.out@;
                while self.out.len() > keep
                    invariant
                        keep <= self.out.len() <= out1.len(),
                        self.out@ == out1.subrange(0, self.out.len() as int),
                        self.wf(),
                        self.delimiter@ == old(self).delimiter@,
                    decreases self.out.len(),
                {
                    let _ = self.out.pop();
                    proof {
                        assert(self.out@ =~= out1.subrange(0, self.out.len() as int));
                    }
                }
                self.action = DelimAction::Finished;
            }
        } else {
            self.action = DelimAction::Finished;
        }
    }
}

/// Positions from `p` up to the stop of a read until `byte` hold other bytes.
proof fn lemma_first_from_before(d: Seq<u8>, p: int, byte: u8)
    requires
        0 <= p <= d.len(),
    ensures
        forall|k: int| p <= k < first_from(d, p, byte) - 1 ==> d[k] != byte,
        first_from(d, p, byte) == d.len() && (p == d.len() || d[d.len() - 1] != byte) ==> forall|k: int|
            p <= k < d.len() ==> d[k] != byte,
    decreases d.len() - p,
{
    if p < d.len() && d[p] != byte {
        lemma_first_from_before(d, p + 1, byte);
    }
}

/// Reads up to (and consumes) `delimiter`, returning the bytes before its first
/// occurrence; when the delimiter doesn't occur, everything left is read and
/// returned.
pub fn read_delimited(source: &mut ByteSource, delimiter: &[u8]) -> (out: Vec<u8>)
    requires
        old(source).wf(),
        delimiter.len() >= 1,
    ensures
        final(source).wf(),
        final(source).data@ == old(source).data@,
        (out@, final(source).pos as int) == delimited_read(
            old(source).data@,
            old(source).pos as int,
            delimiter@,
        ),
{
    let ghost d = source.data@;
    let ghost p0 = source.pos as int;
    let ghost delim = delimiter@;
    let ghost m = delimiter.len() as int;
    let mut r = DelimitedRead::new(delimiter);
    assert(d.subrange(p0, p0) =~= Seq::<u8>::empty());
    loop
        invariant
            r.wf(),
            r.delimiter@ == delim,
            m == delim.len() >= 1,
            source.wf(),
            source.data@ == d,
            0 <= p0 <= source.pos,
            r.action is ReadUntil ==> r.out@ == d.subrange(p0, source.pos as int),
            r.action is ReadUntil ==> forall|j: int|
                p0 <= j && j + m <= source.pos ==> !#[trigger] delim_at(d, j, delim),
            r.action is Finished ==> (r.out@, source.pos as int) == delimited_read(d, p0, delim),
        ensures
            r.action is Finished,
            source.wf(),
            source.data@ == d,
            (r.out@, source.pos as int) == delimited_read(d, p0, delim),
        decreases d.len() - source.pos, if r.action is ReadUntil { 1int } else { 0int },
    {
        match r.action {
            DelimAction::ReadUntil(b) => {
                let ghost q = source.pos as int;
                let mut got: Vec<u8> = Vec::new();
                source.read_until(b, &mut got);
                let ghost q1 = source.pos as int;
                proof {
                    lemma_first_from_bounds(d, q, b);
                    lemma_first_from_before(d, q, b);
                    assert(got@ =~= d.subrange(q, q1));
                }
                r.until_done(got.as_slice());
                proof {
                    assert(p0 <= q <= q1 <= d.len());
                    let out1 = d.subrange(p0, q) + d.subrange(q, q1);
                    assert(out1 =~= d.subrange(p0, q1));
                    // No occurrence ends between q and q1 except possibly at q1.
                    assert forall|j: int| p0 <= j && j + m <= q1 && j + m != q1 implies !#[trigger] delim_at(
                        d,
                        j,
                        delim,
                    ) by {
                        if j + m > q && delim_at(d, j, delim) {
                            assert(d.subrange(j, j + m)[m - 1] == delim[m - 1]);
                            assert(d[j + m - 1] == b);
                        }
                    }
                    if got@.len() > 0 && got@.last() == b {
                        assert(got@.last() == d[q1 - 1]);
                        if ends_with(out1, delim) {
                            let i = q1 - m;
                            assert(d.subrange(i, q1) =~= out1.subrange(out1.len() - m, out1.len() as int));
                            assert(first_delim(d, p0, i, delim));
                            lemma_first_delim_unique(d, p0, i, choose|k: int| first_delim(d, p0, k, delim), delim);
                            assert(r.out@ =~= d.subrange(p0, i));
                        } else {
                            if q1 - m >= p0 {
                                assert(d.subrange(q1 - m, q1) =~= out1.subrange(out1.len() - m, out1.len() as int));
                            }
                            assert(!delim_at(d, q1 - m, delim) || q1 - m < p0);
                        }
                    } else {
                        assert(q1 == d.len());
                        assert forall|j: int| p0 <= j implies !#[trigger] delim_at(d, j, delim) by {
                            if delim_at(d, j, delim) && j + m > q {
                                assert(d.subrange(j, j + m)[m - 1] == delim[m - 1]);
                                assert(d[j + m - 1] == b);
                            }
                        }
                        assert(!exists|i: int| first_delim(d, p0, i, delim));
                    }
                }
            },
            DelimAction::Finished => {
                break;
            },
        }
    }
    r.out
}

/// Data written as a payload followed by the delimiter reads back as the
/// payload, with the delimiter consumed and whatever follows left unread, when
/// the delimiter does not occur in the payload followed by the delimiter before
/// the delimiter itself.
pub proof fn lemma_delimited_roundtrip(payload: Seq<u8>, delim: Seq<u8>, rest: Seq<u8>)
    requires
        delim.len() >= 1,
        forall|j: int| 0 <= j < payload.len() ==> !#[trigger] delim_at(payload + delim, j, delim),
    ensures
        delimited_read(payload + delim + rest, 0, delim) == (payload, (payload.len() + delim.len()) as int),
{
    let d = payload + delim + rest;
    let pl = payload.len() as int;
    let m = delim.len() as int;
    let pd = payload + delim;
    assert(d.subrange(pl, pl + m) =~= delim);
    assert forall|j: int| 0 <= j < pl implies !#[trigger] delim_at(d, j, delim) by {
        assert(!delim_at(pd, j, delim));
        if delim_at(d, j, delim) {
            assert(d.subrange(j, j + m) =~= pd.subrange(j, j + m));
        }
    }
    assert(first_delim(d, 0, pl, delim));
    lemma_first_delim_unique(d, 0, pl, choose|k: int| first_delim(d, 0, k, delim), delim);
    assert(d.subrange(0, pl) =~= payload);
}

// ## Alignment
/// Position `p` plus `shift` is a multiple of `alignment`.
pub open spec fn aligned(p: int, shift: int, alignment: int) -> bool {
    (p + shift) % alignment == 0
}

/// How many padding bytes bring `offset` to the next position `p` at or after
/// it with `p + shift` a multiple of `alignment`.
pub open spec fn spec_padding(offset: int, shift: int, alignment: int) -> int {
    (alignment - (offset + shift) % alignment) % alignment
}

/// The padding before the next element after an alignment (see
/// `spec_padding`); a zero alignment has no meaning.
pub fn align_padding(offset: usize, shift: usize, alignment: usize) -> (out: usize)
    requires
        alignment >= 1,
    ensures
        out == spec_padding(offset as int, shift as int, alignment as int),
{
    let a = offset % alignment;
    let b = shift % alignment;
    proof {
        vstd::arithmetic::div_mod::lemma_add_mod_noop(offset as int, shift as int, alignment as int);
    }
    let r = if a >= alignment - b {
        proof {
            vstd::arithmetic::div_mod::lemma_mod_add_multiples_vanish(a + b - alignment, alignment as int);
            vstd::arithmetic::div_mod::lemma_small_mod((a + b - alignment) as nat, alignment as nat);
        }
        a - (alignment - b)
    } else {
        proof {
            vstd::arithmetic::div_mod::lemma_small_mod((a + b) as nat, alignment as nat);
        }
        a + b
    };
    (alignment - r) % alignment
}

/// After the padding the position plus the shift is a multiple of the
/// alignment, and no shorter padding achieves that: padding ends exactly at the
/// first aligned position.
pub proof fn lemma_padding_aligns(offset: int, shift: int, alignment: int)
    requires
        offset >= 0,
        shift >= 0,
        alignment >= 1,
    ensures
        0 <= spec_padding(offset, shift, alignment) < alignment,
        aligned(offset + spec_padding(offset, shift, alignment), shift, alignment),
        forall|k: int| 0 <= k < spec_padding(offset, shift, alignment) ==> !#[trigger] aligned(offset + k, shift, alignment),
{
    let r = (offset + shift) % alignment;
    let p = spec_padding(offset, shift, alignment);
    if r == 0 {
        assert(p == 0) by {
            vstd::arithmetic::div_mod::lemma_mod_self_0(alignment);
        }
    } else {
        assert(p == alignment - r) by {
            vstd::arithmetic::div_mod::lemma_small_mod((alignment - r) as nat, alignment as nat);
        }
        assert((offset + p + shift) % alignment == 0) by {
            vstd::arithmetic::div_mod::lemma_fundamental_div_mod(offset + shift, alignment);
            let q = (offset + shift) / alignment;
            assert(offset + p + shift == (q + 1) * alignment) by (nonlinear_arith)
                requires
                    offset + shift == alignment * q + r,
                    p == alignment - r,
            ;
            vstd::arithmetic::div_mod::lemma_mod_multiples_basic(q + 1, alignment);
        }
        assert forall|k: int| 0 <= k < p implies !#[trigger] aligned(offset + k, shift, alignment) by {
            vstd::arithmetic::div_mod::lemma_fundamental_div_mod(offset + shift, alignment);
            let q = (offset + shift) / alignment;
            assert(offset + k + shift == alignment * q + (r + k)) by (nonlinear_arith)
                requires
                    offset + shift == alignment * q + r,
            ;
            vstd::arithmetic::div_mod::lemma_mod_multiples_vanish(q, r + k, alignment);
            vstd::arithmetic::div_mod::lemma_small_mod((r + k) as nat, alignment as nat);
        }
    }
}

} // verus!
