//! The virtual stream: an ordered table of sources presented as one
//! contiguous, seekable byte stream. The cursor `(index, seek)` names the
//! active source and the offset inside it; every public operation keeps the
//! cursor consistent with the logical position it denotes.

use crate::model::flat;
use crate::model::lemma_flat_index;
use crate::model::lemma_flat_len;
use crate::model::lemma_flat_push;
use crate::model::lemma_locate_unique;
use crate::model::lemma_prefix_len_agree;
use crate::model::lemma_prefix_len_full;
use crate::model::lemma_prefix_len_mono;
use crate::model::lemma_prefix_len_nonneg;
use crate::model::lemma_seq_sum_push;
use crate::model::locate;
use crate::model::prefix_len;
use crate::model::seq_sum;
use crate::source::SeekFrom;
use crate::source::Source;
use crate::source::StreamError;
use vstd::prelude::*;

verus! {

/// What a completed forward seek of `delta` bytes from position `base` left
/// behind: inside the stream it lands on the cursor covering `base + delta`;
/// at or past the end it clamps to the last byte of a non-empty stream, or to
/// the start of an empty one.
pub open spec fn seek_fwd_post(
    c: Seq<Seq<u8>>,
    base: int,
    delta: int,
    cursor: (int, int),
    p: int,
) -> bool {
    let t = base + delta;
    if t < seq_sum(c) {
        cursor == locate(c, t) && p == t
    } else if c.len() > 0 {
        cursor == (((c.len() - 1) as int, c[c.len() - 1].len() - 1)) && p == seq_sum(c) - 1
    } else {
        cursor == ((0int, 0int)) && p == 0
    }
}

/// What a completed backward seek of `delta` bytes from position `base` left
/// behind: within the bytes already consumed it lands on the cursor covering
/// `base - delta`; any farther and it clamps to the start of the stream.
pub open spec fn seek_bwd_post(
    c: Seq<Seq<u8>>,
    base: int,
    delta: int,
    cursor: (int, int),
    p: int,
) -> bool {
    if delta <= base {
        cursor == locate(c, base - delta) && p == base - delta
    } else {
        cursor == ((0int, 0int)) && p == 0
    }
}

/// One registered source together with its once-probed length.
pub(crate) struct BoxReader<R> {
    pub(crate) reader: R,
    pub(crate) len: u64,
}

impl<R: Source> BoxReader<R> {
    /// Probes the length of `r` by seeking to its end, rewinds it, and wraps
    /// it with that length. Any probing failure is surfaced verbatim.
    pub(crate) fn new(r: R) -> (res: Result<BoxReader<R>, StreamError>)
        requires
            r.inv(),
        ensures
            match res {
                Ok(b) => {
                    &&& b.reader.inv()
                    &&& b.reader.data() == r.data()
                    &&& b.reader.offset() == 0
                    &&& b.len == b.reader.data().len()
                },
                Err(_) => true,
            },
    {
        let mut reader = r;
        let len = match reader.seek_from_end() {
            Ok(l) => l,
            Err(e) => {
                return Err(e);
            },
        };
        match reader.seek_from_start(0) {
            Ok(_) => (),
            Err(e) => {
                return Err(e);
            },
        };
        Ok(BoxReader { reader, len })
    }
}

/// Multiple stream readers: an append-only table of sources exposed as a
/// single virtual byte stream with one cursor.
pub struct StreamReaders<R> {
    buf: Vec<BoxReader<R>>,
    index: usize,
    seek: u64,
    len: u64,
}

impl<R: Source> StreamReaders<R> {
    /// The contents of each registered source, in append order.
    pub closed spec fn contents(&self) -> Seq<Seq<u8>> {
        self.buf@.map(|i: int, b: BoxReader<R>| b.reader.data())
    }

    /// The cursor: active source index and offset within that source.
    pub closed spec fn spec_cursor(&self) -> (int, int) {
        (self.index as int, self.seek as int)
    }

    /// The contents of the whole virtual stream.
    pub open spec fn stream(&self) -> Seq<u8> {
        flat(self.contents())
    }

    /// The total length of the virtual stream.
    pub open spec fn spec_len(&self) -> int {
        seq_sum(self.contents())
    }

    /// The logical position the cursor denotes.
    pub open spec fn spec_pos(&self) -> int {
        prefix_len(self.contents(), self.spec_cursor().0) + self.spec_cursor().1
    }

    /// Well-formedness: every stored source is non-empty and valid, the
    /// recorded lengths and total are right, the cursor is inside the table,
    /// the active source's own cursor agrees with `seek`, every source after
    /// the active one is rewound, and the cursor is normalized — its offset
    /// reaches the active source's length only at the very end of the stream.
    pub closed spec fn wf(&self) -> bool {
        let c = self.contents();
        let n = self.buf@.len() as int;
        &&& self.len == seq_sum(c)
        &&& seq_sum(c) <= u64::MAX
        &&& (forall|i: int| 0 <= i < n ==> (#[trigger] c[i]).len() > 0)
        &&& (forall|i: int| 0 <= i < n ==> (#[trigger] self.buf@[i].len) == c[i].len())
        &&& (forall|i: int| 0 <= i < n ==> (#[trigger] self.buf@[i].reader).inv())
        &&& self.index <= n
        &&& (self.index == n ==> self.seek == 0)
        &&& (self.index < n ==> self.seek <= c[self.index as int].len())
        &&& (self.index < n ==> self.buf@[self.index as int].reader.offset() == self.seek)
        &&& (self.index < n && self.seek == c[self.index as int].len() ==> self.index == n - 1)
        &&& (forall|j: int|
            self.index < j < n ==> (#[trigger] self.buf@[j].reader).offset() == 0)
    }

    /// The position never leaves the closed interval from zero to the total
    /// length.
    pub proof fn lemma_pos_in_range(&self)
        requires
            self.wf(),
        ensures
            0 <= self.spec_pos() <= self.spec_len(),
    {
        let c = self.contents();
        let i = self.index as int;
        let n = c.len() as int;
        lemma_prefix_len_nonneg(c, i);
        lemma_prefix_len_full(c);
        if i == n {
            assert(self.spec_pos() == seq_sum(c));
        } else {
            lemma_prefix_len_mono(c, i + 1, n);
            assert(prefix_len(c, i + 1) == prefix_len(c, i) + c[i].len());
        }
    }

    /// Strictly inside the stream, the cursor is strictly inside the active
    /// source and is exactly what `locate` yields for the position.
    pub proof fn lemma_wf_normalized(&self)
        requires
            self.wf(),
            self.spec_pos() < self.spec_len(),
        ensures
            0 <= self.spec_cursor().0 < self.contents().len(),
            0 <= self.spec_cursor().1 < self.contents()[self.spec_cursor().0].len(),
            locate(self.contents(), self.spec_pos()) == self.spec_cursor(),
    {
        let c = self.contents();
        let i = self.index as int;
        let n = c.len() as int;
        lemma_prefix_len_full(c);
        assert(i < n);
        if self.seek == c[i].len() {
            assert(i == n - 1);
            assert(prefix_len(c, n) == prefix_len(c, n - 1) + c[n - 1].len());
            assert(self.spec_pos() == seq_sum(c));
        }
        lemma_locate_unique(c, i, self.seek as int);
    }

    /// Create a empty `StreamReaders`
    pub fn new() -> (r: StreamReaders<R>)
        ensures
            r.wf(),
            r.contents().len() == 0,
            r.spec_cursor() == ((0int, 0int)),
            r.spec_pos() == 0,
            r.spec_len() == 0,
    {
        let r = StreamReaders { buf: Vec::new(), index: 0, seek: 0, len: 0 };
        proof {
            assert(r.contents() =~= Seq::<Seq<u8>>::empty());
        }
        r
    }

    /// Return `true` if no element
    pub fn is_empty(&self) -> (r: bool)
        requires
            self.wf(),
        ensures
            r <==> self.contents().len() == 0,
    {
        self.buf.is_empty()
    }

    /// Return the length of the stream
    pub fn len(&self) -> (r: u64)
        requires
            self.wf(),
        ensures
            r == self.spec_len(),
    {
        self.len
    }

    /// Return the position
    pub fn pos(&self) -> (r: u64)
        requires
            self.wf(),
        ensures
            r == self.spec_pos(),
    {
        let ghost c = self.contents();
        proof {
            self.lemma_pos_in_range();
        }
        let mut p: u64 = self.seek;
        let mut i: usize = 0;
        while i < self.index
            invariant
                self.wf(),
                i <= self.index,
                p == prefix_len(c, i as int) + self.seek,
                c == self.contents(),
            decreases self.index - i,
        {
            proof {
                self.lemma_pos_in_range();
                lemma_prefix_len_mono(c, i + 1, self.index as int);
                assert(prefix_len(c, i + 1) == prefix_len(c, i as int) + c[i as int].len());
            }
            p = p + self.buf[i].len;
            i += 1;
        }
        p
    }

    /// Rewind every source and place the cursor at logical position zero.
    fn seek_start(&mut self) -> (r: Result<(), StreamError>)
        requires
            old(self).wf(),
        ensures
            final(self).wf(),
            final(self).contents() == old(self).contents(),
            old(self).contents().len() == 0 ==> r is Ok,
            match r {
                Ok(_) => final(self).spec_cursor() == ((0int, 0int)) && final(self).spec_pos()
                    == 0,
                Err(_) => true,
            },
    {
        let ghost c = old(self).contents();
        let n = self.buf.len();
        let mut j = n;
        while j > 0
            invariant
                j <= n,
                n == self.buf@.len(),
                self.wf(),
                c == old(self).contents(),
                self.contents() == c,
                self.index == old(self).index,
                forall|t: int| j <= t < n ==> (#[trigger] self.buf@[t].reader).offset() == 0,
                j <= self.index as int ==> self.seek == 0,
            decreases j,
        {
            j -= 1;
            let e = &mut self.buf[j];
            let res = e.reader.seek_from_start(0);
            proof {
                assert(self.contents() =~= c);
            }
            match res {
                Ok(_) => {},
                Err(err) => {
                    return Err(err);
                },
            }
            if j == self.index {
                self.seek = 0;
            }
        }
        self.index = 0;
        self.seek = 0;
        proof {
            assert(prefix_len(c, 0) == 0);
        }
        Ok(())
    }

    /// Rewind every source, then place the cursor at the logical end: the
    /// last source with its own cursor at its end.
    fn seek_end(&mut self) -> (r: Result<(), StreamError>)
        requires
            old(self).wf(),
        ensures
            final(self).wf(),
            final(self).contents() == old(self).contents(),
            old(self).contents().len() == 0 ==> r is Ok,
            match r {
                Ok(_) => {
                    let c = old(self).contents();
                    &&& final(self).spec_pos() == seq_sum(c)
                    &&& final(self).spec_cursor() == (if c.len() == 0 {
                        (0int, 0int)
                    } else {
                        (((c.len() - 1) as int, c[c.len() - 1].len() as int))
                    })
                },
                Err(_) => true,
            },
    {
        let ghost c = old(self).contents();
        if self.buf.len() == 0 {
            proof {
                assert(prefix_len(c, 0) == 0);
            }
            return Ok(());
        }
        match self.seek_start() {
            Ok(_) => {},
            Err(e) => {
                return Err(e);
            },
        }
        let last = self.buf.len() - 1;
        let l = self.buf[last].len;
        let e = &mut self.buf[last];
        let res = e.reader.seek_from_end();
        proof {
            assert(self.contents() =~= c);
        }
        match res {
            Ok(_) => {},
            Err(err) => {
                return Err(err);
            },
        }
        self.index = last;
        self.seek = l;
        proof {
            lemma_prefix_len_full(c);
            assert(prefix_len(c, last + 1) == prefix_len(c, last as int) + c[last as int].len());
        }
        Ok(())
    }

    /// Move the cursor `offset` bytes forward from the current position,
    /// crossing source boundaries as needed and clamping at the end of the
    /// stream, and return the resulting logical position.
    fn add_offset(&mut self, offset: u64) -> (r: Result<u64, StreamError>)
        requires
            old(self).wf(),
        ensures
            final(self).wf(),
            final(self).contents() == old(self).contents(),
            old(self).contents().len() == 0 ==> r is Ok,
            match r {
                Ok(p) => seek_fwd_post(
                    old(self).contents(),
                    old(self).spec_pos(),
                    offset as int,
                    final(self).spec_cursor(),
                    p as int,
                ) && p == final(self).spec_pos(),
                Err(_) => true,
            },
    {
        let ghost c = old(self).contents();
        proof {
            self.lemma_pos_in_range();
        }
        let cur = self.pos();
        if self.len - cur > offset {
            // The target lies strictly inside the stream: walk forward over
            // whole sources until the rest of the distance fits inside one.
            proof {
                self.lemma_wf_normalized();
            }
            let ghost t = cur + offset as int;
            let mut i: usize = self.index;
            let mut s: u64 = self.seek;
            let mut d: u64 = offset;
            loop
                invariant_except_break
                    prefix_len(c, i as int) + s + d == t,
                invariant
                    self.wf(),
                    c == old(self).contents(),
                    self.contents() == c,
                    self.index == old(self).index,
                    self.seek == old(self).seek,
                    t == old(self).spec_pos() + offset,
                    t < seq_sum(c),
                    c.len() == self.buf@.len(),
                    old(self).index <= i < c.len(),
                    s <= c[i as int].len(),
                ensures
                    self.wf(),
                    c == old(self).contents(),
                    self.contents() == c,
                    self.index == old(self).index,
                    self.seek == old(self).seek,
                    t == old(self).spec_pos() + offset,
                    old(self).index <= i < c.len(),
                    s < c[i as int].len(),
                    prefix_len(c, i as int) + s == t,
                decreases c.len() - i,
            {
                let l = self.buf[i].len;
                if d < l - s {
                    s = s + d;
                    break ;
                }
                d = d - (l - s);
                proof {
                    assert(i < self.buf.len());
                }
                i = i + 1;
                s = 0;
                proof {
                    lemma_prefix_len_full(c);
                    assert(prefix_len(c, i as int) == prefix_len(c, i - 1) + c[i - 1].len());
                    if i == c.len() {
                        assert(prefix_len(c, i as int) == seq_sum(c));
                        assert(false);
                    }
                }
            }
            let e = &mut self.buf[i];
            let res = e.reader.seek_from_start(s);
            proof {
                assert(self.contents() =~= c);
            }
            match res {
                Ok(_) => {},
                Err(err) => {
                    return Err(err);
                },
            }
            self.index = i;
            self.seek = s;
            proof {
                lemma_locate_unique(c, i as int, s as int);
            }
            Ok(self.pos())
        } else {
            // The target reaches or passes the end: clamp to the last byte of
            // a non-empty stream, or stay at the start of an empty one.
            if self.buf.len() == 0 {
                proof {
                    assert(prefix_len(c, 0) == 0);
                }
                return Ok(0);
            }
            let last = self.buf.len() - 1;
            let l = self.buf[last].len;
            let e = &mut self.buf[last];
            let res = e.reader.seek_from_start(l - 1);
            proof {
                assert(self.contents() =~= c);
            }
            match res {
                Ok(_) => {},
                Err(err) => {
                    return Err(err);
                },
            }
            self.index = last;
            self.seek = l - 1;
            proof {
                lemma_prefix_len_full(c);
                lemma_prefix_len_nonneg(c, last as int);
                lemma_prefix_len_mono(c, last + 1, c.len() as int);
                assert(prefix_len(c, last + 1) == prefix_len(c, last as int) + c[
                    last as int
                ].len());
            }
            Ok(self.len - 1)
        }
    }

    /// Move the cursor `offset` bytes backward from the current position,
    /// crossing source boundaries as needed and clamping at the start of the
    /// stream, and return the resulting logical position.
    fn sub_offset(&mut self, offset: u64) -> (r: Result<u64, StreamError>)
        requires
            old(self).wf(),
            offset >= 1,
        ensures
            final(self).wf(),
            final(self).contents() == old(self).contents(),
            old(self).contents().len() == 0 ==> r is Ok,
            match r {
                Ok(p) => seek_bwd_post(
                    old(self).contents(),
                    old(self).spec_pos(),
                    offset as int,
                    final(self).spec_cursor(),
                    p as int,
                ) && p == final(self).spec_pos(),
                Err(_) => true,
            },
    {
        let ghost c = old(self).contents();
        proof {
            self.lemma_pos_in_range();
        }
        let cur = self.pos();
        if offset > cur {
            // The target lies before the start: clamp to position zero.
            match self.seek_start() {
                Ok(_) => Ok(0),
                Err(e) => Err(e),
            }
        } else if offset <= self.seek {
            // The target stays inside the active source.
            let idx = self.index;
            let ns = self.seek - offset;
            let e = &mut self.buf[idx];
            let res = e.reader.seek_from_start(ns);
            proof {
                assert(self.contents() =~= c);
            }
            match res {
                Ok(_) => {},
                Err(err) => {
                    return Err(err);
                },
            }
            self.seek = ns;
            proof {
                lemma_locate_unique(c, idx as int, ns as int);
            }
            Ok(self.pos())
        } else {
            // The target lies in an earlier source: park the cursor at the
            // start of the active source, then step backward, rewinding each
            // source left behind, until the remaining distance fits inside
            // one; that source is seeked from its end.
            let ghost t = cur - offset;
            let mut k: u64 = offset - self.seek;
            if self.index < self.buf.len() {
                let idx = self.index;
                let e = &mut self.buf[idx];
                let res = e.reader.seek_from_start(0);
                proof {
                    assert(self.contents() =~= c);
                }
                match res {
                    Ok(_) => {},
                    Err(err) => {
                        return Err(err);
                    },
                }
                self.seek = 0;
            }
            loop
                invariant_except_break
                    self.seek == 0,
                    prefix_len(c, self.index as int) - k == t,
                invariant
                    self.wf(),
                    c == old(self).contents(),
                    self.contents() == c,
                    c.len() == self.buf@.len(),
                    1 <= k,
                    self.index as int <= c.len(),
                    0 <= t,
                    t <= seq_sum(c) - 1,
                ensures
                    self.wf(),
                    c == old(self).contents(),
                    self.contents() == c,
                    (self.index as int) < c.len(),
                    self.seek < c[self.index as int].len(),
                    prefix_len(c, self.index as int) + self.seek == t,
                decreases self.index,
            {
                proof {
                    assert(prefix_len(c, 0) == 0);
                    if self.index == 0 {
                        assert(false);
                    }
                }
                let l = self.buf[self.index - 1].len;
                let idx = self.index - 1;
                if k <= l {
                    let ns = l - k;
                    let e = &mut self.buf[idx];
                    let res = e.reader.seek_from_start(ns);
                    proof {
                        assert(self.contents() =~= c);
                    }
                    match res {
                        Ok(_) => {},
                        Err(err) => {
                            return Err(err);
                        },
                    }
                    self.index = idx;
                    self.seek = ns;
                    break ;
                } else {
                    let e = &mut self.buf[idx];
                    let res = e.reader.seek_from_start(0);
                    proof {
                        assert(self.contents() =~= c);
                    }
                    match res {
                        Ok(_) => {},
                        Err(err) => {
                            return Err(err);
                        },
                    }
                    self.index = idx;
                    k = k - l;
                }
            }
            proof {
                lemma_locate_unique(c, self.index as int, self.seek as int);
            }
            Ok(self.pos())
        }
    }

    /// Appends an element.
    ///
    /// The length of the source is probed by seeking to its end and back; a
    /// probing failure is surfaced verbatim. A zero-length source is dropped
    /// without error and without effect; any other source is appended and
    /// extends the stream by its length. The logical position is unchanged.
    pub fn push(&mut self, value: R) -> (r: Result<(), StreamError>)
        requires
            old(self).wf(),
            value.inv(),
            old(self).spec_len() + value.data().len() <= u64::MAX,
        ensures
            final(self).wf(),
            final(self).spec_pos() == old(self).spec_pos(),
            match r {
                Ok(_) => {
                    let c = old(self).contents();
                    if value.data().len() == 0 {
                        final(self).contents() == c && final(self).spec_cursor() == old(self).spec_cursor()
                    } else {
                        &&& final(self).contents() == c.push(value.data())
                        &&& final(self).stream() == old(self).stream() + value.data()
                        &&& final(self).spec_len() == old(self).spec_len() + value.data().len()
                        &&& (old(self).spec_pos() < old(self).spec_len() ==> final(self).spec_cursor() == old(self).spec_cursor())
                        &&& (old(self).spec_pos() == old(self).spec_len() ==> final(self).spec_cursor() == ((c.len() as int, 0int)))
                    }
                },
                Err(_) => final(self).contents() == old(self).contents() && final(self).spec_cursor() == old(self).spec_cursor(),
            },
    {
        let ghost c = old(self).contents();
        let reader = match BoxReader::new(value) {
            Ok(b) => b,
            Err(e) => {
                return Err(e);
            },
        };
        if reader.len > 0 {
            proof {
                self.lemma_pos_in_range();
                lemma_prefix_len_full(c);
                if (self.index as int) < c.len() {
                    lemma_prefix_len_mono(c, self.index + 1, c.len() as int);
                    assert(prefix_len(c, self.index + 1) == prefix_len(c, self.index as int) + c[
                        self.index as int
                    ].len());
                }
            }
            // Normalize an at-end cursor that still rests on the last byte
            // boundary of the last source, so the appended source becomes the
            // next one the cursor will enter.
            if self.index < self.buf.len() {
                let idx = self.index;
                if self.seek == self.buf[idx].len {
                    proof {
                        assert(prefix_len(c, idx + 1) == prefix_len(c, idx as int) + c[
                            idx as int
                        ].len());
                    }
                    self.index = idx + 1;
                    self.seek = 0;
                }
            }
            self.len = self.len + reader.len;
            self.buf.push(reader);
            proof {
                lemma_seq_sum_push(c, value.data());
                lemma_flat_push(c, value.data());
                assert(self.contents() =~= c.push(value.data()));
                lemma_prefix_len_agree(self.contents(), c, self.index as int);
                if old(self).spec_pos() == old(self).spec_len() {
                    lemma_prefix_len_agree(self.contents(), c, c.len() as int);
                }
            }
        }
        Ok(())
    }

    /// Seek to the position named by `from` and return the resulting logical
    /// position.
    ///
    /// A target at or past the end of the stream clamps to the last byte of a
    /// non-empty stream (seeking from the end with a non-negative offset
    /// stops at the end itself); a target before the start clamps to
    /// position zero. Out-of-bounds targets are therefore never an error; the
    /// only failures are those of the underlying sources, surfaced verbatim.
    pub fn seek(&mut self, from: SeekFrom) -> (r: Result<u64, StreamError>)
        requires
            old(self).wf(),
        ensures
            final(self).wf(),
            final(self).contents() == old(self).contents(),
            old(self).contents().len() == 0 ==> r is Ok,
            (match from {
                SeekFrom::Current(d) => d == 0,
                _ => false,
            }) ==> r is Ok,
            match r {
                Ok(p) => {
                    let c = old(self).contents();
                    &&& p == final(self).spec_pos()
                    &&& match from {
                        SeekFrom::Start(o) => seek_fwd_post(
                            c,
                            0,
                            o as int,
                            final(self).spec_cursor(),
                            p as int,
                        ),
                        SeekFrom::End(e) => if e >= 0 {
                            p == seq_sum(c) && final(self).spec_cursor() == (if c.len() == 0 {
                                (0int, 0int)
                            } else {
                                (((c.len() - 1) as int, c[c.len() - 1].len() as int))
                            })
                        } else {
                            seek_bwd_post(
                                c,
                                seq_sum(c),
                                -(e as int),
                                final(self).spec_cursor(),
                                p as int,
                            )
                        },
                        SeekFrom::Current(d) => if d == 0 {
                            p == old(self).spec_pos() && *final(self) == *old(self)
                        } else if d > 0 {
                            seek_fwd_post(
                                c,
                                old(self).spec_pos(),
                                d as int,
                                final(self).spec_cursor(),
                                p as int,
                            )
                        } else {
                            seek_bwd_post(
                                c,
                                old(self).spec_pos(),
                                -(d as int),
                                final(self).spec_cursor(),
                                p as int,
                            )
                        },
                    }
                },
                Err(_) => true,
            },
    {
        match from {
            SeekFrom::Current(i) => {
                if i == 0 {
                    let p = self.pos();
                    Ok(p)
                } else if i > 0 {
                    self.add_offset(i as u64)
                } else {
                    let mag: u64 = if i == i64::MIN {
                        9223372036854775808u64
                    } else {
                        (-i) as u64
                    };
                    self.sub_offset(mag)
                }
            },
            SeekFrom::End(end) => {
                if end >= 0 {
                    match self.seek_end() {
                        Ok(_) => Ok(self.len),
                        Err(e) => Err(e),
                    }
                } else {
                    match self.seek_end() {
                        Ok(_) => {},
                        Err(e) => {
                            return Err(e);
                        },
                    }
                    let mag: u64 = if end == i64::MIN {
                        9223372036854775808u64
                    } else {
                        (-end) as u64
                    };
                    self.sub_offset(mag)
                }
            },
            SeekFrom::Start(start) => {
                match self.seek_start() {
                    Ok(_) => {},
                    Err(e) => {
                        return Err(e);
                    },
                }
                self.add_offset(start)
            },
        }
    }

    /// Fill `buf` with up to `buf.len()` bytes starting at the current
    /// logical position, advancing the cursor by the count produced, and
    /// return that count: the smaller of the buffer's capacity and the bytes
    /// remaining. The count is zero exactly when the buffer is empty or the
    /// position is at the end of the stream — never an error. A read that
    /// exhausts the active source continues into the following sources, and
    /// one that ends exactly on a source boundary leaves the cursor at the
    /// start of the next source.
    pub fn read(&mut self, buf: &mut Vec<u8>) -> (r: Result<usize, StreamError>)
        requires
            old(self).wf(),
        ensures
            final(self).wf(),
            final(self).contents() == old(self).contents(),
            final(buf).len() == old(buf).len(),
            old(self).spec_pos() == old(self).spec_len() || old(buf).len() == 0 ==> r is Ok,
            match r {
                Ok(k) => {
                    let c = old(self).contents();
                    let p0 = old(self).spec_pos();
                    let total = old(self).spec_len();
                    &&& k == vstd::math::min(old(buf)@.len() as int, total - p0)
                    &&& final(buf)@.subrange(0, k as int) == flat(c).subrange(p0, p0 + k)
                    &&& (forall|i: int| k <= i < old(buf)@.len() ==> final(buf)@[i] == old(buf)@[i])
                    &&& final(self).spec_pos() == p0 + k
                    &&& (k == 0 ==> final(self).spec_cursor() == old(self).spec_cursor() && final(buf)@ == old(buf)@)
                    &&& (p0 + k < total ==> final(self).spec_cursor() == locate(c, p0 + k))
                    &&& (k > 0 && p0 + k == total ==> final(self).spec_cursor() == ((c.len() as int, 0int)))
                },
                Err(_) => true,
            },
    {
        let ghost c = old(self).contents();
        let ghost p0 = old(self).spec_pos();
        proof {
            self.lemma_pos_in_range();
            lemma_flat_len(c);
        }
        let n = buf.len();
        let cur = self.pos();
        if cur >= self.len || n == 0 {
            proof {
                assert(buf@.subrange(0, 0) =~= flat(c).subrange(p0, p0));
                if p0 < seq_sum(c) {
                    self.lemma_wf_normalized();
                }
            }
            return Ok(0);
        }
        proof {
            self.lemma_wf_normalized();
        }
        let mut filled: usize = 0;
        loop
            invariant
                self.wf(),
                c == old(self).contents(),
                self.contents() == c,
                c.len() == self.buf@.len(),
                p0 == old(self).spec_pos(),
                p0 < seq_sum(c),
                buf.len() == n,
                n == old(buf).len(),
                1 <= n,
                filled <= n,
                p0 + filled == self.spec_pos(),
                self.spec_pos() <= seq_sum(c),
                (self.index as int) < c.len() ==> self.seek < c[self.index as int].len(),
                forall|i: int| 0 <= i < filled ==> buf@[i] == flat(c)[p0 + i],
                forall|i: int| filled <= i < n ==> buf@[i] == old(buf)@[i],
            ensures
                self.wf(),
                c == old(self).contents(),
                self.contents() == c,
                c.len() == self.buf@.len(),
                buf.len() == n,
                filled <= n,
                p0 + filled == self.spec_pos(),
                self.spec_pos() <= seq_sum(c),
                1 <= filled,
                (self.index as int) < c.len() ==> self.seek < c[self.index as int].len(),
                filled == n || self.index as int == c.len(),
                forall|i: int| 0 <= i < filled ==> buf@[i] == flat(c)[p0 + i],
                forall|i: int| filled <= i < n ==> buf@[i] == old(buf)@[i],
            decreases n - filled,
        {
            if filled == n {
                break ;
            }
            if self.index == self.buf.len() {
                proof {
                    lemma_prefix_len_full(c);
                }
                break ;
            }
            let idx = self.index;
            let ghost pre = *self;
            let ghost sk = self.seek as int;
            let e = &mut self.buf[idx];
            let res = e.reader.read_into(buf, filled);
            proof {
                assert(self.contents() =~= c);
            }
            match res {
                Err(err) => {
                    return Err(err);
                },
                Ok(kk) => {
                    proof {
                        assert(kk >= 1);
                        assert(c[idx as int] == pre.buf@[idx as int].reader.data());
                        assert forall|i: int| filled <= i < filled + kk implies #[trigger] buf@[i]
                            == flat(c)[p0 + i] by {
                            lemma_flat_index(c, idx as int, sk + (i - filled));
                        }
                    }
                    filled = filled + kk;
                    self.seek = self.seek + kk as u64;
                    if self.seek == self.buf[idx].len {
                        self.index = idx + 1;
                        self.seek = 0;
                    }
                    proof {
                        lemma_prefix_len_full(c);
                        lemma_prefix_len_mono(c, idx + 1, c.len() as int);
                        assert(prefix_len(c, idx + 1) == prefix_len(c, idx as int) + c[
                            idx as int
                        ].len());
                    }
                },
            }
        }
        proof {
            lemma_prefix_len_full(c);
            assert(buf@.subrange(0, filled as int) =~= flat(c).subrange(p0, p0 + filled));
            if p0 + filled < seq_sum(c) {
                self.lemma_wf_normalized();
                lemma_locate_unique(c, self.index as int, self.seek as int);
            }
            if p0 + filled == seq_sum(c) && (self.index as int) < c.len() {
                lemma_prefix_len_mono(c, self.index + 1, c.len() as int);
                assert(prefix_len(c, self.index + 1) == prefix_len(c, self.index as int) + c[
                    self.index as int
                ].len());
                assert(false);
            }
        }
        Ok(filled)
    }

    /// The total length of the stream is the sum of the lengths of the
    /// stored sources, every one of which is non-empty: zero-length sources
    /// were dropped at registration and contribute nothing.
    pub proof fn lemma_total_is_sum(&self)
        requires
            self.wf(),
        ensures
            self.spec_len() == seq_sum(self.contents()),
            self.stream().len() == self.spec_len(),
            forall|i: int| 0 <= i < self.contents().len() ==> (#[trigger] self.contents()[i]).len()
                > 0,
    {
        lemma_flat_len(self.contents());
    }

    /// Each read produces the smaller of the buffer's capacity and the bytes
    /// remaining: a positive count strictly before the end of the stream and
    /// zero exactly at it, so reading to exhaustion from the start yields
    /// every byte of the stream, terminated by a read that produces nothing.
    pub proof fn lemma_read_progress(&self, n: int)
        requires
            self.wf(),
            1 <= n,
        ensures
            self.spec_pos() < self.spec_len() ==> 1 <= vstd::math::min(
                n,
                self.spec_len() - self.spec_pos(),
            ),
            self.spec_pos() == self.spec_len() ==> vstd::math::min(
                n,
                self.spec_len() - self.spec_pos(),
            ) == 0,
    {
        self.lemma_pos_in_range();
    }

    /// A relative backward seek of `k` bytes followed by a relative forward
    /// seek of `k` bytes restores the exact cursor — active source index and
    /// offset inside it — for any `k` not exceeding the bytes already
    /// consumed: both seeks land on the cursor `locate` yields, and `locate`
    /// of the original position is the original cursor. (At the very end of
    /// the stream a forward seek clamps to the last byte, so the law speaks
    /// of positions strictly inside the stream.)
    pub proof fn lemma_back_then_forward(&self, k: int)
        requires
            self.wf(),
            0 <= k <= self.spec_pos(),
            self.spec_pos() < self.spec_len(),
        ensures
            locate(self.contents(), (self.spec_pos() - k) + k) == self.spec_cursor(),
    {
        self.lemma_wf_normalized();
    }
}

/// The bytes that a sequence of reads produces, as `read`'s contract fixes
/// them: a read with capacity `n` at position `p` of a stream `s` produces
/// exactly the `min(n, s.len() - p)` bytes of `s` at `p` and advances the
/// position by that count, and a read at the end produces nothing.
pub open spec fn drained(s: Seq<u8>, p: int, reqs: Seq<int>) -> Seq<u8>
    decreases reqs.len(),
{
    if reqs.len() == 0 || p >= s.len() {
        Seq::empty()
    } else {
        let k = vstd::math::min(reqs.first(), s.len() - p);
        s.subrange(p, p + k) + drained(s, p + k, reqs.drop_first())
    }
}

/// Reading to exhaustion yields exactly the rest of the stream: from any
/// position, reads with positive capacities — enough of them that their
/// number covers the bytes remaining — produce, concatenated in order, every
/// byte from that position to the end of the stream; any read past that
/// point produces zero bytes.
pub proof fn lemma_reads_drain_the_stream(s: Seq<u8>, p: int, reqs: Seq<int>)
    requires
        0 <= p <= s.len(),
        forall|i: int| 0 <= i < reqs.len() ==> reqs[i] >= 1,
        reqs.len() >= s.len() - p,
    ensures
        drained(s, p, reqs) == s.subrange(p, s.len() as int),
    decreases reqs.len(),
{
    if reqs.len() == 0 || p >= s.len() {
        assert(drained(s, p, reqs) =~= s.subrange(p, s.len() as int));
    } else {
        assert(reqs[0] >= 1);
        let k = vstd::math::min(reqs.first(), s.len() - p);
        let d = reqs.drop_first();
        assert forall|i: int| 0 <= i < d.len() implies #[trigger] d[i] >= 1 by {
            assert(d[i] == reqs[i + 1]);
        }
        lemma_reads_drain_the_stream(s, p + k, d);
        assert(s.subrange(p, p + k) + s.subrange(p + k, s.len() as int) =~= s.subrange(
            p,
            s.len() as int,
        ));
    }
}

impl<R: Source> Default for StreamReaders<R> {
    /// The empty stream.
    fn default() -> (r: StreamReaders<R>)
        ensures
            r.wf(),
            r.contents().len() == 0,
            r.spec_pos() == 0,
    {
        StreamReaders::new()
    }
}

} // verus!
