use vstd::prelude::*;
use vstd::slice::slice_subrange;

use crate::rewrite::{
    LF, SPACE, lemma_rewrite_append, rewrite_space_cr_from, space_cr_rewritten,
};
use crate::utf8::{is_continuation_byte, utf8_boundary, utf8_boundary_of};

verus! {

/// No byte of `s` is a line feed.
pub open spec fn newline_free(s: Seq<u8>) -> bool {
    forall|i: int| 0 <= i < s.len() ==> s[i] != LF
}

/// `p[..n]` is the first line of `p`, `\n` included, and is no longer than the chunk
/// limit.
pub open spec fn ends_first_line(p: Seq<u8>, n: int) -> bool {
    &&& 1 <= n <= LineBuffer::MAX_LINE_LENGTH
    &&& n <= p.len()
    &&& p[n - 1] == LF
    &&& newline_free(p.take(n - 1))
}

/// Length of the frame that the pending bytes `p` yield next, 0 for none: the first
/// line with its `\n` where it ends within the chunk limit; else, where more than the
/// limit is pending, a chunk of the limit backed off to a character boundary; else
/// nothing yet.
pub open spec fn next_frame_len(p: Seq<u8>) -> int {
    if exists|n: int| ends_first_line(p, n) {
        choose|n: int| ends_first_line(p, n)
    } else if p.len() > LineBuffer::MAX_LINE_LENGTH {
        utf8_boundary_of(p, LineBuffer::MAX_LINE_LENGTH as int)
    } else {
        0
    }
}

/// Cuts the raw byte stream of a container's console into frames: each frame ends at
/// a `\n`, or is forced out at the chunk limit when no `\n` comes in time.
pub struct LineBuffer {
    /// The rewritten stream from the first byte not yet dropped by `compact`.
    buffer: Vec<u8>,
    /// Where in `buffer` the next frame starts.
    line_start: usize,
    /// Every byte ever handed to `extend`, in order.
    stream: Ghost<Seq<u8>>,
    /// How many bytes of the front of the stream `compact` has dropped.
    drained: Ghost<nat>,
}

impl LineBuffer {
    /// Room reserved up front (10 KiB).
    const INITIAL_CAPACITY: usize = 10240;

    /// The point at which a single line stops accumulating (64 KiB).
    pub const MAX_LINE_LENGTH: usize = 65536;

    /// How many handed-out bytes may sit at the front of the store before `compact`
    /// drops them (10 KiB).
    pub const COMPACT_THRESHOLD: usize = 10240;

    /// Every byte that `extend` has been given, in order.
    pub closed spec fn stream(&self) -> Seq<u8> {
        self.stream@
    }

    /// How many bytes of the output have been handed out as frames.
    pub closed spec fn consumed(&self) -> nat {
        self.drained@ + self.line_start as nat
    }

    /// Position of the next frame within the stored bytes.
    pub closed spec fn start_index(&self) -> nat {
        self.line_start as nat
    }

    /// How many bytes are stored.
    pub closed spec fn stored_len(&self) -> nat {
        self.buffer@.len()
    }

    /// The output stream: the input with every `" \r"` turned into `"\r\n"`.
    pub open spec fn output(&self) -> Seq<u8> {
        space_cr_rewritten(self.stream())
    }

    /// The part of the output already handed out as frames.
    pub open spec fn emitted(&self) -> Seq<u8> {
        self.output().take(self.consumed() as int)
    }

    /// The part of the output not handed out yet.
    pub open spec fn pending(&self) -> Seq<u8> {
        self.output().skip(self.consumed() as int)
    }

    /// The store holds the rewritten stream from the first byte not yet dropped on;
    /// the next frame starts within it; and where everything has been handed out, the
    /// last byte of the stream is no space, so no later `\r` can pair with it.
    pub closed spec fn wf(&self) -> bool {
        &&& self.line_start <= self.buffer@.len()
        &&& self.drained@ + self.buffer@.len() == self.stream@.len()
        &&& self.buffer@ == space_cr_rewritten(self.stream@).skip(self.drained@ as int)
        &&& (self.consumed() == self.stream@.len() && self.stream@.len() > 0)
            ==> self.stream@.last() != SPACE
    }

    proof fn lemma_pending_is_stored_tail(&self)
        requires
            self.wf(),
        ensures
            self.pending() == self.buffer@.skip(self.line_start as int),
            self.consumed() <= self.stream().len(),
            self.output().len() == self.stream().len(),
            self.stored_len() - self.start_index() == self.pending().len(),
    {
        assert(self.pending() =~= self.buffer@.skip(self.line_start as int));
    }

    /// An empty buffer: nothing fed, nothing handed out.
    pub fn new() -> (lb: Self)
        ensures
            lb.wf(),
            lb.stream() == Seq::<u8>::empty(),
            lb.consumed() == 0,
            lb.start_index() == 0,
            lb.stored_len() == 0,
    {
        let lb = LineBuffer {
            buffer: Vec::with_capacity(Self::INITIAL_CAPACITY),
            line_start: 0,
            stream: Ghost(Seq::empty()),
            drained: Ghost(0),
        };
        assert(lb.buffer@ =~= space_cr_rewritten(Seq::<u8>::empty()).skip(0));
        lb
    }

    /// Appends `data` to the stream. One byte of overlap is rescanned so that a
    /// `" \r"` straddling two reads is still caught, but never one before the next
    /// frame: those bytes have already been handed out.
    pub fn extend(&mut self, data: &[u8])
        requires
            old(self).wf(),
        ensures
            final(self).wf(),
            final(self).stream() == old(self).stream() + data@,
            final(self).consumed() == old(self).consumed(),
            final(self).emitted() == old(self).emitted(),
            final(self).start_index() == old(self).start_index(),
            final(self).stored_len() == old(self).stored_len() + data@.len(),
    {
        let len = self.buffer.len();
        let back = len.saturating_sub(1);
        let scan_from = if self.line_start > back { self.line_start } else { back };
        let ghost s = self.stream@;
        let ghost dr = self.drained@ as int;
        let ghost old_buf = self.buffer@;
        self.buffer.extend_from_slice(data);
        assert(self.buffer@ =~= old_buf + data@);
        rewrite_space_cr_from(self.buffer.as_mut_slice(), scan_from);
        self.stream = Ghost(s + data@);
        proof {
            let r = space_cr_rewritten(s);
            let from = dr + scan_from;
            lemma_rewrite_append(s, data@, from);
            assert((old_buf + data@).skip(scan_from as int) =~= (r + data@).skip(from));
            assert((old_buf + data@).take(scan_from as int) =~= r.subrange(dr, from));
            assert(self.buffer@ =~= space_cr_rewritten(s + data@).skip(dr));
            assert(self.emitted() =~= space_cr_rewritten(s).take(self.consumed() as int));
        }
    }

    /// Next frame of output: the first pending line, `\n` included and nothing trimmed;
    /// or, where no `\n` comes within the chunk limit and more than the limit is
    /// pending, a chunk of the limit, backed off so that it does not end inside a
    /// UTF-8 character; or `None` while neither is there yet.
    pub fn next_line(&mut self) -> (r: Option<&[u8]>)
        requires
            old(self).wf(),
        ensures
            final(self).wf(),
            final(self).stream() == old(self).stream(),
            final(self).stored_len() == old(self).stored_len(),
            match r {
                Some(frame) => {
                    &&& frame@.len() == next_frame_len(old(self).pending())
                    &&& frame@ == old(self).pending().take(frame@.len() as int)
                    &&& final(self).consumed() == old(self).consumed() + frame@.len()
                    &&& final(self).emitted() == old(self).emitted() + frame@
                    &&& final(self).start_index() == old(self).start_index() + frame@.len()
                    &&& 1 <= frame@.len() <= LineBuffer::MAX_LINE_LENGTH
                },
                None => {
                    &&& next_frame_len(old(self).pending()) == 0
                    &&& final(self).consumed() == old(self).consumed()
                    &&& final(self).start_index() == old(self).start_index()
                },
            },
    {
        proof {
            self.lemma_pending_is_stored_tail();
        }
        let ghost p = self.pending();
        let start = self.line_start;
        let n = self.buffer.len();
        let mut i: usize = start;
        while i < n && i - start < Self::MAX_LINE_LENGTH
            invariant
                start <= i <= n,
                n == self.buffer@.len(),
                i - start <= Self::MAX_LINE_LENGTH,
                p == self.buffer@.skip(start as int),
                forall|k: int| start <= k < i ==> self.buffer@[k] != LF,
            ensures
                start <= i <= n,
                i - start <= Self::MAX_LINE_LENGTH,
                forall|k: int| start <= k < i ==> self.buffer@[k] != LF,
                i < n && i - start < Self::MAX_LINE_LENGTH ==> self.buffer@[i as int] == LF,
            decreases n - i,
        {
            if self.buffer[i] == LF {
                break;
            }
            i = i + 1;
        }
        let len: usize;
        if i < n && i - start < Self::MAX_LINE_LENGTH {
            len = i - start + 1;
            proof {
                let m = len as int;
                assert(p[m - 1] == LF);
                assert(newline_free(p.take(m - 1)));
                assert(ends_first_line(p, m));
                assert forall|q: int| ends_first_line(p, q) implies q == m by {
                    if q < m {
                        assert(p.take(m - 1)[q - 1] == p[q - 1]);
                    } else if q > m {
                        assert(p.take(q - 1)[m - 1] == p[m - 1]);
                    }
                }
            }
        } else {
            proof {
                assert forall|q: int| !ends_first_line(p, q) by {
                    if ends_first_line(p, q) {
                        assert(self.buffer@[start + q - 1] == LF);
                    }
                }
            }
            if n - start > Self::MAX_LINE_LENGTH {
                let rest = slice_subrange(self.buffer.as_slice(), start, n);
                len = utf8_boundary(rest, Self::MAX_LINE_LENGTH);
            } else {
                return None;
            }
        }
        self.line_start = start + len;
        proof {
            let out = space_cr_rewritten(self.stream@);
            let c = self.drained@ + start;
            assert(out.take(c + len) =~= out.take(c) + p.take(len as int));
            if c + len == self.stream@.len() {
                assert(p[len - 1] == LF);
                assert(out[c + len - 1] == LF);
            }
        }
        Some(slice_subrange(self.buffer.as_slice(), start, start + len))
    }

    /// Drops the bytes already handed out from the front of the store, once they are
    /// more than the threshold and more than half of what is stored. The stream and
    /// what is pending do not change.
    pub fn compact(&mut self)
        requires
            old(self).wf(),
        ensures
            final(self).wf(),
            final(self).stream() == old(self).stream(),
            final(self).consumed() == old(self).consumed(),
            if old(self).start_index() > LineBuffer::COMPACT_THRESHOLD
                && old(self).start_index() > old(self).stored_len() / 2 {
                &&& final(self).start_index() == 0
                &&& final(self).stored_len() == old(self).stored_len() - old(self).start_index()
            } else {
                &&& final(self).start_index() == old(self).start_index()
                &&& final(self).stored_len() == old(self).stored_len()
            },
    {
        let start = self.line_start;
        let n = self.buffer.len();
        if start > Self::COMPACT_THRESHOLD && start > n / 2 {
            let ghost old_buf = self.buffer@;
            let ghost st = self.stream@;
            let ghost dr = self.drained@;
            let keep = n - start;
            let mut i: usize = 0;
            while i < keep
                invariant
                    keep == n - start,
                    start <= n,
                    old_buf.len() == n,
                    self.buffer@.len() == n,
                    self.stream@ == st,
                    self.drained@ == dr,
                    old_buf == space_cr_rewritten(st).skip(dr as int),
                    dr + n == st.len(),
                    (dr + start == st.len() && st.len() > 0) ==> st.last() != SPACE,
                    i <= keep,
                    forall|k: int| 0 <= k < i ==> self.buffer@[k] == old_buf[start + k],
                    forall|k: int| i <= k < n ==> self.buffer@[k] == old_buf[k],
                decreases keep - i,
            {
                let b = self.buffer[start + i];
                self.buffer.set(i, b);
                i = i + 1;
            }
            self.buffer.truncate(keep);
            self.line_start = 0;
            self.drained = Ghost(self.drained@ + start as nat);
            proof {
                assert(self.buffer@ =~= old_buf.skip(start as int));
                assert(space_cr_rewritten(self.stream@).skip(self.drained@ as int)
                    =~= old_buf.skip(start as int));
            }
        }
    }

    /// What is pending, verbatim, where anything is; the state does not change.
    pub fn flush(&self) -> (r: Option<&[u8]>)
        requires
            self.wf(),
        ensures
            match r {
                Some(rest) => rest@ == self.pending() && rest@.len() > 0,
                None => self.pending().len() == 0,
            },
    {
        proof {
            self.lemma_pending_is_stored_tail();
        }
        let rest = slice_subrange(self.buffer.as_slice(), self.line_start, self.buffer.len());
        if rest.len() > 0 {
            Some(rest)
        } else {
            None
        }
    }

    /// Position of the next frame within the stored bytes.
    pub fn line_start(&self) -> (r: usize)
        ensures
            r == self.start_index(),
    {
        self.line_start
    }

    /// How many bytes are stored, handed out or not.
    pub fn buffer_len(&self) -> (r: usize)
        ensures
            r == self.stored_len(),
    {
        self.buffer.len()
    }

    /// Everything handed out as frames, followed by what is pending, is the whole
    /// stream with its `" \r"` pairs rewritten: writing the frames and then the
    /// flushed rest into a terminal is the same as feeding it that stream.
    pub proof fn lemma_frames_reassemble_stream(&self)
        requires
            self.wf(),
        ensures
            self.emitted() + self.pending() == space_cr_rewritten(self.stream()),
            self.emitted().len() == self.consumed(),
            self.start_index() <= self.stored_len(),
            self.stored_len() - self.start_index() == self.pending().len(),
    {
        self.lemma_pending_is_stored_tail();
        assert(self.emitted() + self.pending() =~= space_cr_rewritten(self.stream()));
    }

    /// Bytes once handed out are never revised: however the stream goes on, its
    /// rewritten form still begins with what has been emitted.
    pub proof fn lemma_emitted_is_final(&self, more: Seq<u8>)
        requires
            self.wf(),
        ensures
            space_cr_rewritten(self.stream() + more).take(self.consumed() as int)
                == self.emitted(),
    {
        let s = self.stream();
        let n = s.len() as int;
        let c = self.consumed() as int;
        self.lemma_pending_is_stored_tail();
        let from = if c == n { n } else { n - 1 };
        lemma_rewrite_append(s, more, from);
        let r = space_cr_rewritten(s);
        let whole = space_cr_rewritten(s + more);
        assert forall|j: int| 0 <= j < c implies whole[j] == r[j] by {
            assert((r.take(from) + space_cr_rewritten((r + more).skip(from)))[j] == r[j]);
        }
        assert(whole.take(c) =~= self.emitted());
    }
}


/// Facts about the frame length that `next_line` cuts from pending bytes `p`: it is
/// at most the chunk limit and at most what is pending; a frame is either one whole
/// line ending in its only `\n`, or a forced chunk that stops no more than three bytes
/// short of the limit and is followed by more pending bytes; and there is no frame
/// exactly when no `\n` lies within the limit and no more than the limit is pending.
pub proof fn lemma_frame_shape(p: Seq<u8>)
    ensures
        0 <= next_frame_len(p) <= LineBuffer::MAX_LINE_LENGTH,
        next_frame_len(p) <= p.len(),
        next_frame_len(p) == 0 <==> (p.len() <= LineBuffer::MAX_LINE_LENGTH && newline_free(p)),
        next_frame_len(p) > 0 ==> {
            let n = next_frame_len(p);
            ||| (p[n - 1] == LF && newline_free(p.take(n - 1)))
            ||| (newline_free(p.take(n)) && newline_free(p.take(LineBuffer::MAX_LINE_LENGTH as int))
                && LineBuffer::MAX_LINE_LENGTH - 3 <= n && n < p.len())
        },
{
    let max = LineBuffer::MAX_LINE_LENGTH as int;
    if exists|n: int| ends_first_line(p, n) {
        let n = choose|n: int| ends_first_line(p, n);
        if newline_free(p) {
            assert(p[n - 1] != LF);
        }
    } else {
        if p.len() <= max && !newline_free(p) {
            let i = choose|i: int| 0 <= i < p.len() && p[i] == LF;
            lemma_first_newline(p, i);
        }
        if p.len() > max {
            if !newline_free(p.take(max)) {
                let i = choose|i: int| 0 <= i < max && p.take(max)[i] == LF;
                assert(p[i] == LF);
                lemma_first_newline(p, i);
            }
            let n = next_frame_len(p);
            assert forall|i: int| 0 <= i < n implies p.take(n)[i] != LF by {
                assert(p.take(max)[i] == p[i]);
            }
        }
    }
}

/// Where `p` holds a `\n` at `i` within the chunk limit, some `\n` is the first.
proof fn lemma_first_newline(p: Seq<u8>, i: int)
    requires
        0 <= i < p.len(),
        i < LineBuffer::MAX_LINE_LENGTH,
        p[i] == LF,
    ensures
        exists|n: int| ends_first_line(p, n),
    decreases i,
{
    if newline_free(p.take(i)) {
        assert(ends_first_line(p, i + 1));
    } else {
        let k = choose|k: int| 0 <= k < i && p.take(i)[k] == LF;
        assert(p[k] == LF);
        lemma_first_newline(p, k);
    }
}

/// A forced chunk never ends inside a UTF-8 character: unless the four bytes at and
/// just before the limit are all continuation bytes, the byte that follows the chunk
/// starts a character; and where they all are, the chunk is the full limit.
pub proof fn lemma_forced_split_at_char_start(p: Seq<u8>)
    requires
        p.len() > LineBuffer::MAX_LINE_LENGTH,
        newline_free(p.take(LineBuffer::MAX_LINE_LENGTH as int)),
    ensures
        next_frame_len(p) == utf8_boundary_of(p, LineBuffer::MAX_LINE_LENGTH as int),
        (exists|k: int|
            LineBuffer::MAX_LINE_LENGTH - 3 <= k <= LineBuffer::MAX_LINE_LENGTH
                && !is_continuation_byte(#[trigger] p[k]))
            ==> !is_continuation_byte(p[next_frame_len(p)]),
        (forall|k: int|
            LineBuffer::MAX_LINE_LENGTH - 3 <= k <= LineBuffer::MAX_LINE_LENGTH
                ==> is_continuation_byte(#[trigger] p[k]))
            ==> next_frame_len(p) == LineBuffer::MAX_LINE_LENGTH,
{
    let max = LineBuffer::MAX_LINE_LENGTH as int;
    assert forall|n: int| !ends_first_line(p, n) by {
        if ends_first_line(p, n) {
            assert(p.take(max)[n - 1] == p[n - 1]);
        }
    }
    if exists|k: int| max - 3 <= k <= max && !is_continuation_byte(#[trigger] p[k]) {
        let k = choose|k: int| max - 3 <= k <= max && !is_continuation_byte(#[trigger] p[k]);
        assert(k == max || k == max - 1 || k == max - 2 || k == max - 3);
    }
}

} // verus!
