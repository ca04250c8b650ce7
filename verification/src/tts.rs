//! The speech producer adapter: wraps a synthesis engine's chunked output
//! behind the buffer-pull interface.
//!
//! The engine hands over an utterance as a finite sequence of raw sample
//! chunks whose lengths bear no relation to the caller's buffer length. The
//! adapter consumes the chunks one at a time, in order, and carries the tail
//! of a chunk that did not fit the caller's request in an owned leftover
//! buffer, which is drained before the next chunk is touched. Running the
//! synthesis engine itself is the caller's job; a session begins when the
//! engine's chunks are handed to [`Speaker::say`].

use vstd::prelude::*;
use crate::types::Samp;

verus! {

/// The concatenation of a sequence of chunks, in order.
pub open spec fn concat_chunks(cs: Seq<Seq<Samp>>) -> Seq<Samp>
    decreases cs.len(),
{
    if cs.len() == 0 {
        Seq::empty()
    } else {
        cs.first() + concat_chunks(cs.drop_first())
    }
}

/// `post` is `pre` with exactly `data` written at positions
/// `[from, from + data.len())` and every other position untouched.
pub open spec fn written(pre: Seq<Samp>, post: Seq<Samp>, from: int, data: Seq<Samp>) -> bool {
    &&& post.len() == pre.len()
    &&& 0 <= from
    &&& from + data.len() <= pre.len()
    &&& forall|i: int|
        0 <= i < pre.len() && !(from <= i < from + data.len()) ==> post[i] == #[trigger] pre[i]
    &&& forall|i: int| 0 <= i < data.len() ==> post[from + i] == #[trigger] data[i]
}

/// Two consecutive writes compose into one write of the concatenated data.
pub proof fn lemma_written_compose(
    a: Seq<Samp>,
    b: Seq<Samp>,
    c: Seq<Samp>,
    from: int,
    d1: Seq<Samp>,
    d2: Seq<Samp>,
)
    requires
        written(a, b, from, d1),
        written(b, c, from + d1.len(), d2),
    ensures
        written(a, c, from, d1 + d2),
{
    assert forall|i: int| 0 <= i < (d1 + d2).len() implies c[from + i] == #[trigger] (d1 + d2)[i]
    by {
        if i < d1.len() {
            assert(b[from + i] == d1[i]);
        } else {
            assert(c[from + d1.len() + (i - d1.len())] == d2[i - d1.len()]);
        }
    }
}

/// Writing nothing leaves the buffer as it was.
pub proof fn lemma_written_empty(pre: Seq<Samp>, from: int)
    requires
        0 <= from <= pre.len(),
    ensures
        written(pre, pre, from, Seq::<Samp>::empty()),
{
}

/// The sum of a sequence of request lengths.
pub open spec fn total_req(reqs: Seq<int>) -> int
    decreases reqs.len(),
{
    if reqs.len() == 0 {
        0
    } else {
        reqs.first() + total_req(reqs.drop_first())
    }
}

/// A total of non-negative request lengths is non-negative.
pub proof fn lemma_total_req_nonneg(reqs: Seq<int>)
    requires
        forall|i: int| 0 <= i < reqs.len() ==> reqs[i] >= 0,
    ensures
        total_req(reqs) >= 0,
    decreases reqs.len(),
{
    if reqs.len() > 0 {
        let rest = reqs.drop_first();
        assert(forall|i: int| 0 <= i < rest.len() ==> #[trigger] rest[i] == reqs[i + 1]);
        lemma_total_req_nonneg(rest);
    }
}

/// What a sequence of pulls of the given sizes drains from the sample stream
/// `s`: each pull takes as much of what remains as its size allows, in
/// order — exactly how `Speaker::next` behaves on `s = remaining()`.
pub open spec fn drained(s: Seq<Samp>, reqs: Seq<int>) -> Seq<Samp>
    decreases reqs.len(),
{
    if reqs.len() == 0 {
        Seq::empty()
    } else {
        let k = vstd::math::min(reqs.first(), s.len() as int);
        s.take(k) + drained(s.skip(k), reqs.drop_first())
    }
}

/// Speech draining rebuilds the utterance: concatenating the outputs of
/// successive pulls, in call order, yields the stream itself once the pulls
/// cover its length — no sample duplicated or dropped, whatever the request
/// sizes.
pub proof fn lemma_drain_rebuilds(s: Seq<Samp>, reqs: Seq<int>)
    requires
        forall|i: int| 0 <= i < reqs.len() ==> reqs[i] >= 0,
        total_req(reqs) >= s.len(),
    ensures
        drained(s, reqs) == s,
    decreases reqs.len(),
{
    if reqs.len() == 0 {
        assert(s =~= Seq::<Samp>::empty());
        assert(drained(s, reqs) =~= s);
    } else {
        let k = vstd::math::min(reqs.first(), s.len() as int);
        let rest = reqs.drop_first();
        assert(forall|i: int| 0 <= i < rest.len() ==> #[trigger] rest[i] == reqs[i + 1]);
        lemma_total_req_nonneg(rest);
        assert(total_req(rest) >= s.skip(k).len());
        lemma_drain_rebuilds(s.skip(k), rest);
        assert(s.take(k) + s.skip(k) =~= s);
    }
}

/// The speech producer adapter. It owns the chunks of the current utterance,
/// a cursor for the next chunk to consume, and the leftover buffer holding
/// the tail of the most recent chunk that did not fit a request.
pub struct Speaker {
    buf: Vec<Samp>,
    chunks: Vec<Vec<Samp>>,
    next_chunk: usize,
    session: bool,
}

impl Speaker {
    /// The chunks of the current session not yet consumed, in order.
    pub closed spec fn queued(self) -> Seq<Seq<Samp>> {
        self.chunks@.map_values(|v: Vec<Samp>| v@).skip(self.next_chunk as int)
    }

    /// Every sample the adapter still has to deliver, in delivery order:
    /// the leftover buffer first, then the unconsumed chunks.
    pub closed spec fn remaining(self) -> Seq<Samp> {
        self.buf@ + concat_chunks(self.queued())
    }

    /// What `is_speaking` reports: a session is active or leftover samples
    /// remain. It may still be true with nothing left to deliver — one more
    /// `next` call then returns 0, the exhaustion signal.
    pub closed spec fn is_speaking_spec(self) -> bool {
        self.buf@.len() > 0 || self.session
    }

    /// Internal consistency: the cursor stays within the chunk list, and
    /// once no session is active nothing remains to deliver.
    pub closed spec fn wf(self) -> bool {
        &&& self.next_chunk <= self.chunks@.len()
        &&& (!self.session ==> self.buf@.len() == 0 && self.next_chunk == self.chunks@.len())
    }

    /// A consistent adapter that no longer reports speaking has nothing
    /// left to deliver.
    pub proof fn lemma_silent_is_drained(self)
        requires
            self.wf(),
        ensures
            !self.is_speaking_spec() ==> self.remaining().len() == 0,
    {
        if !self.is_speaking_spec() {
            assert(self.queued() =~= Seq::<Seq<Samp>>::empty());
            assert(self.remaining() =~= Seq::<Samp>::empty());
        }
    }

    /// A fresh adapter: no session, nothing to deliver.
    pub fn new() -> (s: Speaker)
        ensures
            s.wf(),
            !s.is_speaking_spec(),
            s.remaining() == Seq::<Samp>::empty(),
    {
        let s = Speaker { buf: Vec::new(), chunks: Vec::new(), next_chunk: 0, session: false };
        proof {
            assert(s.queued() =~= Seq::<Seq<Samp>>::empty());
            assert(s.remaining() =~= Seq::<Samp>::empty());
        }
        s
    }

    /// True while a session is active or unconsumed samples remain.
    pub fn is_speaking(&self) -> (r: bool)
        ensures
            r == self.is_speaking_spec(),
    {
        !self.buf.is_empty() || self.session
    }

    /// Begin an utterance from the synthesis engine's chunk sequence.
    /// Sessions must not overlap: the previous one must be fully drained,
    /// which the sequencer's state machine enforces.
    pub fn say(&mut self, chunks: Vec<Vec<Samp>>)
        requires
            old(self).wf(),
            !old(self).is_speaking_spec(),
        ensures
            final(self).wf(),
            final(self).is_speaking_spec(),
            final(self).remaining() == concat_chunks(chunks@.map_values(|v: Vec<Samp>| v@)),
    {
        let ghost cs = chunks@.map_values(|v: Vec<Samp>| v@);
        self.chunks = chunks;
        self.next_chunk = 0;
        self.session = true;
        proof {
            assert(self.queued() =~= cs);
            assert(self.remaining() =~= concat_chunks(cs));
        }
    }

    /// Fill `buf[from..]` with as much speech as remains, in order: the
    /// leftover buffer first, then whole chunks, splitting the chunk that
    /// only partially fits. Returns how many samples were written; a short
    /// (or zero) fill means the utterance is exhausted.
    pub fn next(&mut self, buf: &mut Vec<Samp>, from: usize) -> (r: usize)
        requires
            old(self).wf(),
            from <= old(buf)@.len(),
        ensures
            final(self).wf(),
            from + r <= final(buf)@.len(),
            r as int == vstd::math::min(
                old(buf)@.len() - from,
                old(self).remaining().len() as int,
            ),
            written(old(buf)@, final(buf)@, from as int, old(self).remaining().take(r as int)),
            final(self).remaining() == old(self).remaining().skip(r as int),
            from + r < old(buf)@.len() ==> !final(self).is_speaking_spec(),
            from + r == old(buf)@.len() ==> final(self).is_speaking_spec() == old(
                self,
            ).is_speaking_spec(),
    {
        let ghost rem0 = self.remaining();
        if self.buf.is_empty() {
            proof {
                assert(rem0 =~= concat_chunks(self.queued()));
            }
            self.copy_from_tts(buf, from)
        } else {
            let ghost lft = self.buf@;
            let ghost tail = concat_chunks(self.queued());
            let filled = self.partial_copy_from_stored_buf(buf, from);
            if filled < buf.len() - from {
                // The leftover was fully drained and space remains.
                proof {
                    assert(filled == lft.len());
                    assert(self.buf@ =~= Seq::<Samp>::empty());
                    assert(self.remaining() =~= tail);
                    assert(lft.take(filled as int) =~= lft);
                }
                let ghost mid = buf@;
                let more = self.copy_from_tts(buf, from + filled);
                proof {
                    lemma_written_compose(
                        old(buf)@,
                        mid,
                        buf@,
                        from as int,
                        lft,
                        tail.take(more as int),
                    );
                    assert(lft + tail.take(more as int) =~= rem0.take((filled + more) as int));
                    assert(tail.skip(more as int) =~= rem0.skip((filled + more) as int));
                }
                filled + more
            } else {
                proof {
                    assert(filled == old(buf)@.len() - from);
                    assert(filled <= lft.len());
                    assert(lft.take(filled as int) =~= rem0.take(filled as int));
                    assert(self.remaining() =~= rem0.skip(filled as int));
                }
                filled
            }
        }
    }

    /// Drain the leftover buffer into `to[from..]`: copy what fits, keep the
    /// rest as the new leftover. Touches nothing but the leftover buffer.
    fn partial_copy_from_stored_buf(&mut self, to: &mut Vec<Samp>, from: usize) -> (r: usize)
        requires
            from <= old(to)@.len(),
        ensures
            r as int == vstd::math::min(old(to)@.len() - from, old(self).buf@.len() as int),
            written(old(to)@, final(to)@, from as int, old(self).buf@.take(r as int)),
            final(self).buf@ == old(self).buf@.skip(r as int),
            final(self).chunks == old(self).chunks,
            final(self).next_chunk == old(self).next_chunk,
            final(self).session == old(self).session,
    {
        let (k, rest) = partial_copy(&self.buf, to, from);
        self.buf = rest;
        k
    }

    /// Pull whole chunks, in order, into `to[from..]` until it is full or the
    /// utterance is exhausted; the tail of a chunk that only partially fits
    /// becomes the new leftover buffer. Requires the leftover to be drained.
    /// Discovering exhaustion before the buffer is full ends the session.
    fn copy_from_tts(&mut self, to: &mut Vec<Samp>, from: usize) -> (r: usize)
        requires
            old(self).wf(),
            old(self).buf@.len() == 0,
            from <= old(to)@.len(),
        ensures
            final(self).wf(),
            from + r <= final(to)@.len(),
            r as int == vstd::math::min(
                old(to)@.len() - from,
                old(self).remaining().len() as int,
            ),
            written(old(to)@, final(to)@, from as int, old(self).remaining().take(r as int)),
            final(self).remaining() == old(self).remaining().skip(r as int),
            from + r < old(to)@.len() ==> !final(self).is_speaking_spec(),
            from + r == old(to)@.len() ==> final(self).is_speaking_spec() == old(
                self,
            ).is_speaking_spec(),
    {
        let ghost r0 = self.remaining();
        let ghost to0 = to@;
        proof {
            assert(r0 =~= concat_chunks(self.queued()));
        }
        if !self.session {
            proof {
                assert(self.queued() =~= Seq::<Seq<Samp>>::empty());
                assert(r0 =~= Seq::<Samp>::empty());
                assert(r0.take(0) =~= Seq::<Samp>::empty());
                lemma_written_empty(to0, from as int);
                assert(r0.skip(0) =~= r0);
            }
            return 0;
        }
        let tlen = to.len();
        let space = tlen - from;
        let mut filled: usize = 0;
        while filled < space && self.next_chunk < self.chunks.len()
            invariant
                self.session,
                self.next_chunk <= self.chunks@.len(),
                filled <= space,
                from + space == tlen,
                to@.len() == tlen,
                to0.len() == tlen,
                filled <= r0.len(),
                self.buf@ + concat_chunks(self.queued()) == r0.skip(filled as int),
                filled < space ==> self.buf@.len() == 0,
                written(to0, to@, from as int, r0.take(filled as int)),
            decreases self.chunks@.len() - self.next_chunk,
        {
            let ghost q_pre = self.queued();
            let ghost to_pre = to@;
            let c = self.next_chunk;
            let ghost chunk = self.chunks@[c as int]@;
            proof {
                assert(q_pre.first() == chunk);
                assert(concat_chunks(q_pre) == chunk + concat_chunks(q_pre.drop_first()));
            }
            let (k, rest) = partial_copy(&self.chunks[c], to, from + filled);
            self.buf = rest;
            self.next_chunk = c + 1;
            proof {
                assert(self.queued() =~= q_pre.drop_first());
                // The remaining stream after consuming k samples of this chunk.
                assert(chunk.skip(k as int) + concat_chunks(self.queued()) =~= (chunk
                    + concat_chunks(self.queued())).skip(k as int));
                assert((r0.skip(filled as int)).skip(k as int) =~= r0.skip(filled + k));
                // The data written so far concatenates.
                assert(chunk.take(k as int) =~= r0.skip(filled as int).take(k as int));
                lemma_written_compose(
                    to0,
                    to_pre,
                    to@,
                    from as int,
                    r0.take(filled as int),
                    r0.skip(filled as int).take(k as int),
                );
                assert(r0.take(filled as int) + r0.skip(filled as int).take(k as int)
                    =~= r0.take(filled + k));
            }
            filled = filled + k;
        }
        if filled < space {
            // The chunk list is exhausted: end the session.
            self.session = false;
            proof {
                assert(self.queued() =~= Seq::<Seq<Samp>>::empty());
                assert(r0.skip(filled as int) =~= Seq::<Samp>::empty());
                assert(filled == r0.len());
            }
        }
        filled
    }
}

/// Copy as much of `src` as fits into `to[from..]`; return how many samples
/// were copied and the uncopied tail of `src`.
fn partial_copy(src: &Vec<Samp>, to: &mut Vec<Samp>, from: usize) -> (res: (usize, Vec<Samp>))
    requires
        from <= old(to)@.len(),
    ensures
        res.0 as int == vstd::math::min(old(to)@.len() - from, src@.len() as int),
        written(old(to)@, final(to)@, from as int, src@.take(res.0 as int)),
        res.1@ == src@.skip(res.0 as int),
{
    let ghost to0 = to@;
    let tlen = to.len();
    let space = tlen - from;
    let k = if space < src.len() {
        space
    } else {
        src.len()
    };
    let mut i: usize = 0;
    while i < k
        invariant
            i <= k,
            from + k <= tlen,
            k <= src@.len(),
            to@.len() == tlen,
            to0.len() == tlen,
            forall|j: int| 0 <= j < to@.len() && !(from <= j < from + i) ==> to@[j] == #[trigger] to0[j],
            forall|j: int| 0 <= j < i ==> to@[from + j] == #[trigger] src@[j],
        decreases k - i,
    {
        let v = src[i];
        to[from + i] = v;
        i = i + 1;
    }
    let mut rest: Vec<Samp> = Vec::new();
    let mut j: usize = k;
    while j < src.len()
        invariant
            k <= j <= src@.len(),
            rest@ == src@.subrange(k as int, j as int),
        decreases src@.len() - j,
    {
        let v = src[j];
        rest.push(v);
        proof {
            assert(rest@ =~= src@.subrange(k as int, j + 1));
        }
        j = j + 1;
    }
    proof {
        assert(rest@ =~= src@.skip(k as int));
        assert(forall|j: int|
            0 <= j < k ==> to@[from + j] == #[trigger] src@.take(k as int)[j]);
    }
    (k, rest)
}

} // verus!
