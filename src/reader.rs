use vstd::prelude::*;
use crate::source::{ByteSource, ReadStep, SourceError};

verus! {

/// How many interruptions in a row one call of [`ChunkedReader::next`]
/// retries before it hands the interruption to its caller.
pub const RETRY_LIMIT: u64 = 0xFFFF_FFFF_FFFF_FFFF;

/// What one call of [`ChunkedReader::next`] produces.
pub enum Outcome {
    Chunk(Seq<u8>),
    Exhausted,
    Error(SourceError),
}

/// The bytes that a run of replies delivered, in order.
pub open spec fn delivered(steps: Seq<ReadStep>) -> Seq<u8>
    decreases steps.len(),
{
    if steps.len() == 0 {
        Seq::empty()
    } else {
        let rest = delivered(steps.drop_last());
        match steps.last() {
            ReadStep::Bytes(b) => rest + b,
            _ => rest,
        }
    }
}

/// The number of interruptions in a run of replies.
pub open spec fn interruptions(steps: Seq<ReadStep>) -> nat
    decreases steps.len(),
{
    if steps.len() == 0 {
        0
    } else {
        interruptions(steps.drop_last()) + if steps.last() is Interrupted { 1nat } else { 0nat }
    }
}

/// The replies with every interruption taken out.
pub open spec fn without_interruptions(steps: Seq<ReadStep>) -> Seq<ReadStep>
    decreases steps.len(),
{
    if steps.len() == 0 {
        Seq::empty()
    } else {
        let rest = without_interruptions(steps.drop_last());
        if steps.last() is Interrupted {
            rest
        } else {
            rest.push(steps.last())
        }
    }
}

/// A reply after which the reader asks the source again.
pub open spec fn continues(step: ReadStep) -> bool {
    match step {
        ReadStep::Bytes(b) => b.len() > 0,
        ReadStep::Interrupted => true,
        _ => false,
    }
}

/// `steps` is the whole exchange of one call of `next` on a buffer of `cap`
/// bytes: the reader keeps asking while the buffer has room and the source
/// neither ends nor fails, and stops at the first reply that fills the buffer,
/// ends, or fails.
pub open spec fn is_call(steps: Seq<ReadStep>, cap: nat) -> bool {
    &&& steps.len() > 0
    &&& forall|i: int| 0 <= i < steps.len() - 1 ==> continues(#[trigger] steps[i])
    &&& delivered(steps.drop_last()).len() < cap
    &&& delivered(steps).len() <= cap
    &&& match steps.last() {
        ReadStep::Bytes(b) => b.len() > 0 && delivered(steps).len() == cap,
        ReadStep::End => true,
        ReadStep::Interrupted => interruptions(steps) > RETRY_LIMIT,
        ReadStep::Failed(e) => !(e is Interrupted),
    }
}

/// Each read of a call was offered the part of the buffer that the earlier
/// reads of the call left unfilled: the whole buffer first, the same room again
/// after an interruption.
pub open spec fn offers_unfilled_rest(steps: Seq<ReadStep>, rooms: Seq<nat>, cap: nat) -> bool {
    &&& rooms.len() == steps.len()
    &&& forall|i: int|
        0 <= i < rooms.len() ==> #[trigger] rooms[i] == cap - delivered(steps.take(i)).len()
}

/// What a call whose exchange was `steps` returns.
pub open spec fn outcome(steps: Seq<ReadStep>) -> Outcome {
    match steps.last() {
        ReadStep::Failed(e) => Outcome::Error(e),
        ReadStep::Interrupted => Outcome::Error(SourceError::Interrupted),
        _ => if delivered(steps).len() == 0 {
            Outcome::Exhausted
        } else {
            Outcome::Chunk(delivered(steps))
        },
    }
}

/// `r` is the value that stands for `o`.
pub open spec fn returns_outcome(r: Result<Option<&[u8]>, SourceError>, o: Outcome) -> bool {
    match r {
        Ok(Some(c)) => o == Outcome::Chunk(c@),
        Ok(None) => o == Outcome::Exhausted,
        Err(e) => o == Outcome::Error(e),
    }
}

proof fn lemma_delivered_without_interruptions(steps: Seq<ReadStep>)
    ensures
        delivered(without_interruptions(steps)) == delivered(steps),
        interruptions(without_interruptions(steps)) == 0,
    decreases steps.len(),
{
    if steps.len() > 0 {
        lemma_delivered_without_interruptions(steps.drop_last());
        let rest = without_interruptions(steps.drop_last());
        if !(steps.last() is Interrupted) {
            assert(rest.push(steps.last()).drop_last() =~= rest);
        }
    }
}

proof fn lemma_without_interruptions_continue(steps: Seq<ReadStep>)
    requires
        forall|i: int| 0 <= i < steps.len() ==> continues(#[trigger] steps[i]),
    ensures
        forall|j: int|
            0 <= j < without_interruptions(steps).len() ==> continues(
                #[trigger] without_interruptions(steps)[j],
            ),
    decreases steps.len(),
{
    if steps.len() > 0 {
        let rest = without_interruptions(steps.drop_last());
        assert forall|i: int| 0 <= i < steps.drop_last().len() implies continues(
            #[trigger] steps.drop_last()[i],
        ) by {
            assert(steps.drop_last()[i] == steps[i]);
        };
        lemma_without_interruptions_continue(steps.drop_last());
        if !(steps.last() is Interrupted) {
            assert(continues(steps[steps.len() - 1]));
            assert forall|j: int| 0 <= j < rest.push(steps.last()).len() implies continues(
                #[trigger] rest.push(steps.last())[j],
            ) by {
                if j < rest.len() {
                    assert(rest.push(steps.last())[j] == rest[j]);
                }
            };
        }
    }
}

/// The bytes delivered over two runs of replies are those of the first run
/// followed by those of the second.
pub proof fn lemma_delivered_concat(a: Seq<ReadStep>, b: Seq<ReadStep>)
    ensures
        delivered(a + b) == delivered(a) + delivered(b),
    decreases b.len(),
{
    if b.len() == 0 {
        assert(a + b =~= a);
        assert(delivered(a) + delivered(b) =~= delivered(a));
    } else {
        lemma_delivered_concat(a, b.drop_last());
        assert((a + b).drop_last() =~= a + b.drop_last());
        assert((a + b).last() == b.last());
        match b.last() {
            ReadStep::Bytes(x) => {
                assert(delivered(a) + delivered(b.drop_last()) + x =~= delivered(a) + (
                delivered(b.drop_last()) + x));
            },
            _ => {},
        }
    }
}

/// The chunk that `next` cuts from content `rest` with a buffer of `cap` bytes.
pub open spec fn first_chunk(rest: Seq<u8>, cap: nat) -> Seq<u8> {
    if rest.len() < cap {
        rest
    } else {
        rest.take(cap as int)
    }
}

/// The chunks, in order, that successive calls of `next` cut from `content`.
pub open spec fn chunks_of(content: Seq<u8>, cap: nat) -> Seq<Seq<u8>>
    recommends
        cap > 0,
    decreases content.len(),
{
    if cap == 0 || content.len() == 0 {
        Seq::empty()
    } else {
        seq![first_chunk(content, cap)] + chunks_of(content.skip(first_chunk(content, cap).len() as int), cap)
    }
}

/// Over a whole run the chunks, joined, are the content with no byte lost or
/// repeated, every chunk but the last is full, and there are
/// `ceil(len / cap)` of them.
pub proof fn lemma_run_covers_content(content: Seq<u8>, cap: nat)
    requires
        cap > 0,
    ensures
        chunks_of(content, cap).flatten() == content,
        forall|i: int|
            0 <= i < chunks_of(content, cap).len() - 1 ==> (#[trigger] chunks_of(content, cap)[i]).len()
                == cap,
        chunks_of(content, cap).len() > 0 ==> 0 < chunks_of(content, cap).last().len() <= cap,
        chunks_of(content, cap).len() == (content.len() + cap - 1) / cap as int,
    decreases content.len(),
{
    let cs = chunks_of(content, cap);
    if content.len() == 0 {
        assert(cs =~= Seq::<Seq<u8>>::empty());
        assert((content.len() + cap - 1) / cap as int == 0) by (nonlinear_arith)
            requires content.len() == 0, cap > 0;
    } else {
        let c = first_chunk(content, cap);
        let rest = content.skip(c.len() as int);
        lemma_run_covers_content(rest, cap);
        let rs = chunks_of(rest, cap);
        assert(cs == seq![c] + rs);
        assert((seq![c] + rs).flatten() == c + rs.flatten()) by {
            assert((seq![c] + rs).drop_first() =~= rs);
        };
        assert(c + rest =~= content);
        if rest.len() > 0 {
            assert(c.len() == cap);
        }
        assert forall|i: int| 0 <= i < cs.len() - 1 implies (#[trigger] cs[i]).len() == cap by {
            if i > 0 {
                assert(cs[i] == rs[i - 1]);
            }
        };
        if rs.len() > 0 {
            assert(cs.last() == rs.last());
        }
        let n = content.len() as int;
        let k = cap as int;
        if n < k {
            assert(rest.len() == 0);
            assert((n + k - 1) / k == 1) by (nonlinear_arith)
                requires 0 < n < k;
            assert((rest.len() + cap - 1) / cap as int == 0) by (nonlinear_arith)
                requires rest.len() == 0, cap > 0;
        } else {
            assert(rest.len() == n - k);
            assert((n + k - 1) / k == 1 + (n - k + k - 1) / k) by (nonlinear_arith)
                requires n >= k, k > 0;
        }
    }
}

/// A chunk holds exactly the bytes that the reads of its call delivered, and
/// it is shorter than the buffer only when the source reported its end: short
/// reads are gathered until the buffer is full.
pub proof fn lemma_chunk_gathers_reads(steps: Seq<ReadStep>, cap: nat)
    requires
        is_call(steps, cap),
    ensures
        outcome(steps) is Chunk ==> outcome(steps) == Outcome::Chunk(delivered(steps)),
        outcome(steps) is Chunk ==> delivered(steps).len() > 0 && delivered(steps).len() <= cap,
        outcome(steps) is Chunk && delivered(steps).len() < cap ==> steps.last() is End,
{
}

/// A call whose only answer from the source, interruptions aside, is the end
/// of input returns the terminal signal; a call that received bytes before the
/// end returns them as a chunk instead, so the signal follows the last chunk.
pub proof fn lemma_exhausted_source_signals_end(steps: Seq<ReadStep>, cap: nat)
    requires
        is_call(steps, cap),
        steps.last() is End,
    ensures
        without_interruptions(steps) == seq![ReadStep::End] ==> outcome(steps) == Outcome::Exhausted,
        delivered(steps).len() > 0 ==> outcome(steps) == Outcome::Chunk(delivered(steps)),
{
    lemma_delivered_without_interruptions(steps);
    if without_interruptions(steps) == seq![ReadStep::End] {
        let w = seq![ReadStep::End];
        assert(w.drop_last() =~= Seq::<ReadStep>::empty());
        assert(delivered(w) == delivered(w.drop_last()));
    }
}

/// Interruptions change nothing: a call that was interrupted (fewer than
/// `RETRY_LIMIT + 1` times) reads and returns exactly what the same call
/// returns when the source answers the same way without interrupting.
pub proof fn lemma_interruptions_are_invisible(steps: Seq<ReadStep>, cap: nat)
    requires
        is_call(steps, cap),
        interruptions(steps) <= RETRY_LIMIT,
    ensures
        is_call(without_interruptions(steps), cap),
        outcome(without_interruptions(steps)) == outcome(steps),
        interruptions(without_interruptions(steps)) == 0,
{
    let w = without_interruptions(steps);
    let front = steps.drop_last();
    lemma_delivered_without_interruptions(steps);
    lemma_delivered_without_interruptions(front);
    if steps.last() is Interrupted {
        assert(steps.drop_last() == front);
        assert(false);
    }
    assert(w == without_interruptions(front).push(steps.last()));
    assert(w.drop_last() =~= without_interruptions(front));
    assert forall|i: int| 0 <= i < front.len() implies continues(#[trigger] front[i]) by {
        assert(front[i] == steps[i]);
    };
    lemma_without_interruptions_continue(front);
    assert forall|i: int| 0 <= i < w.len() - 1 implies continues(#[trigger] w[i]) by {
        assert(w[i] == without_interruptions(front)[i]);
    };
}

proof fn lemma_step_pushed(log: Seq<ReadStep>, start: int, x: ReadStep)
    requires
        0 <= start <= log.len(),
    ensures
        log.push(x).skip(start) == log.skip(start).push(x),
        log.skip(start).push(x).drop_last() == log.skip(start),
        log.push(x).subrange(0, start) == log.subrange(0, start),
        log.push(x).len() == log.len() + 1,
        log.push(x).last() == x,
{
    assert(log.push(x).skip(start) =~= log.skip(start).push(x));
    assert(log.skip(start).push(x).drop_last() =~= log.skip(start));
    assert(log.push(x).subrange(0, start) =~= log.subrange(0, start));
}

/// Reads a source through a fixed buffer of `N` bytes, one full chunk at a time.
///
/// The buffer is allocated once and reused by every call of [`Self::next`].
pub struct ChunkedReader<T, const N: usize> {
    buffer: [u8; N],
    io: T,
}

impl<T: ByteSource, const N: usize> ChunkedReader<T, N> {
    /// The source describes its content to the verifier.
    pub closed spec fn modelled(&self) -> bool {
        self.io.modelled()
    }

    /// Every answer that the source has given, oldest first.
    pub closed spec fn replies(&self) -> Seq<ReadStep> {
        self.io.answers()
    }

    /// The room that each read of the source offered, in the order of `replies`.
    pub closed spec fn rooms(&self) -> Seq<nat> {
        self.io.rooms()
    }

    /// The bytes that the source has still to deliver.
    pub closed spec fn remaining(&self) -> Seq<u8> {
        self.io.remaining()
    }

    /// Every further read of the source delivers bytes or reports the end.
    pub closed spec fn reliable(&self) -> bool {
        self.io.reliable()
    }

    /// Wraps `io` with a zeroed buffer of `N` bytes.
    pub fn new(io: T) -> (r: Self)
        requires
            N > 0,
        ensures
            r.modelled() == io.modelled(),
            r.replies() == io.answers(),
            r.rooms() == io.rooms(),
            r.remaining() == io.remaining(),
            r.reliable() == io.reliable(),
    {
        ChunkedReader { buffer: [0u8; N], io }
    }

    /// Gets the next chunk, if any.
    ///
    /// Reads until the buffer is full or the source ends, retrying
    /// interrupted reads (up to [`RETRY_LIMIT`] of them); the chunk is
    /// everything those reads delivered: the next `min(N, remaining)` bytes
    /// of the content. An exhausted source gives `Ok(None)`, and any failure
    /// other than an interruption is handed back at once.
    pub fn next(&mut self) -> (r: Result<Option<&[u8]>, SourceError>)
        requires
            N > 0,
        ensures
            final(self).modelled() == old(self).modelled(),
            r matches Ok(Some(c)) ==> 0 < c@.len() <= N,
            old(self).modelled() ==> final(self).replies().len() > old(self).replies().len(),
            old(self).modelled() ==> final(self).replies().subrange(
                0,
                old(self).replies().len() as int,
            ) == old(self).replies(),
            old(self).modelled() ==> is_call(
                final(self).replies().skip(old(self).replies().len() as int),
                N as nat,
            ),
            old(self).modelled() ==> final(self).rooms().len() - old(self).rooms().len()
                == final(self).replies().len() - old(self).replies().len(),
            old(self).modelled() ==> final(self).rooms().subrange(0, old(self).rooms().len() as int)
                == old(self).rooms(),
            old(self).modelled() ==> offers_unfilled_rest(
                final(self).replies().skip(old(self).replies().len() as int),
                final(self).rooms().skip(old(self).rooms().len() as int),
                N as nat,
            ),
            old(self).modelled() ==> returns_outcome(
                r,
                outcome(final(self).replies().skip(old(self).replies().len() as int)),
            ),
            old(self).modelled() ==> (r matches Ok(Some(c)) ==> c@ == old(self).remaining().take(
                c@.len() as int,
            ) && final(self).remaining() == old(self).remaining().skip(c@.len() as int) && c@
                == first_chunk(old(self).remaining(), N as nat)),
            old(self).modelled() ==> (r matches Ok(None) ==> old(self).remaining().len() == 0
                && final(self).remaining().len() == 0),
            old(self).modelled() && old(self).reliable() ==> r is Ok && final(self).reliable(),
    {
        let ghost log0 = self.io.answers();
        let ghost rem0 = self.io.remaining();
        let ghost rooms0 = self.io.rooms();
        let ghost model = self.io.modelled();
        let ghost rel0 = self.io.reliable();
        let mut total: usize = 0;
        let mut retries: u64 = 0;
        let mut ended = false;
        while total < N && !ended
            invariant
                N > 0,
                log0 == old(self).io.answers(),
                rem0 == old(self).io.remaining(),
                model == old(self).io.modelled(),
                rel0 == old(self).io.reliable(),
                self.io.modelled() == model,
                total <= N,
                self.buffer@.len() == N,
                model ==> self.io.answers().len() >= log0.len(),
                model ==> self.io.answers().subrange(0, log0.len() as int) == log0,
                rooms0 == old(self).io.rooms(),
                model ==> self.io.rooms().len() >= rooms0.len(),
                model ==> self.io.rooms().subrange(0, rooms0.len() as int) == rooms0,
                model ==> offers_unfilled_rest(
                    self.io.answers().skip(log0.len() as int),
                    self.io.rooms().skip(rooms0.len() as int),
                    N as nat,
                ),
                model && ended ==> self.io.answers().len() > log0.len()
                    && self.io.answers().last() is End,
                model && !ended ==> forall|i: int|
                    log0.len() <= i < self.io.answers().len() ==> continues(
                        #[trigger] self.io.answers()[i],
                    ),
                model && ended ==> forall|i: int|
                    log0.len() <= i < self.io.answers().len() - 1 ==> continues(
                        #[trigger] self.io.answers()[i],
                    ),
                model && self.io.answers().len() > log0.len() ==> delivered(
                    self.io.answers().skip(log0.len() as int).drop_last(),
                ).len() < N,
                model ==> delivered(self.io.answers().skip(log0.len() as int)).len() == total,
                model ==> self.buffer@.subrange(0, total as int) == delivered(
                    self.io.answers().skip(log0.len() as int),
                ),
                model ==> interruptions(self.io.answers().skip(log0.len() as int)) == retries,
                model ==> total <= rem0.len(),
                model ==> self.buffer@.subrange(0, total as int) == rem0.take(total as int),
                model ==> self.io.remaining() == rem0.skip(total as int),
                model && ended ==> rem0.len() == total,
                model && rel0 ==> self.io.reliable(),
            decreases N - total, (if ended { 0int } else { 1int }), RETRY_LIMIT - retries,
        {
            let ghost before = self.buffer@;
            let ghost log = self.io.answers();
            let ghost rem = self.io.remaining();
            let ghost steps = log.skip(log0.len() as int);
            let ghost rooms = self.io.rooms();
            let res = self.io.read_at(&mut self.buffer, total);
            proof {
                if model {
                    lemma_step_pushed(log, log0.len() as int, self.io.answers().last());
                    assert(self.io.answers() == log.push(self.io.answers().last()));
                    let room = (N - total) as nat;
                    assert(self.io.rooms() == rooms.push(room));
                    assert(self.io.rooms().skip(rooms0.len() as int) =~= rooms.skip(
                        rooms0.len() as int,
                    ).push(room));
                    assert(self.io.rooms().subrange(0, rooms0.len() as int) =~= rooms.subrange(
                        0,
                        rooms0.len() as int,
                    ));
                    let nsteps = self.io.answers().skip(log0.len() as int);
                    assert(nsteps == steps.push(self.io.answers().last()));
                    assert forall|i: int| 0 <= i <= steps.len() implies #[trigger] nsteps.take(i)
                        == steps.take(i) by {
                        assert(nsteps.take(i) =~= steps.take(i));
                    };
                    assert(steps.take(steps.len() as int) =~= steps);
                    let nrooms = self.io.rooms().skip(rooms0.len() as int);
                    assert forall|i: int| 0 <= i < nrooms.len() implies #[trigger] nrooms[i] == N
                        - delivered(nsteps.take(i)).len() by {
                        if i < steps.len() {
                            assert(nsteps.take(i) == steps.take(i));
                        } else {
                            assert(nsteps.take(i) == steps.take(i));
                        }
                    };
                }
            }
            match res {
                Ok(0) => {
                    ended = true;
                },
                Ok(k) => {
                    proof {
                        if model {
                            let got = self.buffer@.subrange(total as int, total + k);
                            assert(self.buffer@.subrange(0, total as int) =~= before.subrange(
                                0,
                                total as int,
                            ));
                            assert(self.buffer@.subrange(0, total + k) =~= self.buffer@.subrange(
                                0,
                                total as int,
                            ) + got);
                            assert(rem0.take(total + k) =~= rem0.take(total as int) + rem.take(
                                k as int,
                            ));
                            assert(rem.skip(k as int) =~= rem0.skip(total + k));
                        }
                    }
                    total = total + k;
                },
                Err(SourceError::Interrupted) => {
                    proof {
                        assert(self.buffer@.subrange(0, total as int) =~= before.subrange(
                            0,
                            total as int,
                        ));
                    }
                    if retries == RETRY_LIMIT {
                        return Err(SourceError::Interrupted);
                    }
                    retries = retries + 1;
                },
                Err(e) => {
                    return Err(e);
                },
            }
        }
        proof {
            if model {
                let steps = self.io.answers().skip(log0.len() as int);
                if !ended {
                    assert(steps.len() > 0) by {
                        if steps.len() == 0 {
                            assert(delivered(steps).len() == 0);
                        }
                    };
                    assert(continues(steps[steps.len() - 1]));
                }
            }
        }
        if total == 0 {
            Ok(None)
        } else {
            Ok(Some(vstd::slice::slice_subrange(self.buffer.as_slice(), 0, total)))
        }
    }
}

} // verus!
