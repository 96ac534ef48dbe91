use vstd::prelude::*;

verus! {

/// Why a read from a [`ByteSource`] did not deliver bytes.
#[derive(Debug, PartialEq, Eq)]
pub enum SourceError {
    /// The read was interrupted before any byte moved; asking again is safe.
    Interrupted,
    /// Any other failure, with a description of its cause.
    Failed(String),
}

/// One answer of a source to a read.
pub enum ReadStep {
    /// The read delivered these bytes (never empty).
    Bytes(Seq<u8>),
    /// The read delivered nothing: the source is exhausted.
    End,
    /// The read was interrupted.
    Interrupted,
    /// The read failed for another reason.
    Failed(SourceError),
}

/// The answer that a read returning `r` gave, when it wrote into `buf` from
/// `start`.
pub open spec fn answer_step(r: Result<usize, SourceError>, buf: Seq<u8>, start: int) -> ReadStep {
    match r {
        Ok(n) => if n == 0 {
            ReadStep::End
        } else {
            ReadStep::Bytes(buf.subrange(start, start + n))
        },
        Err(SourceError::Interrupted) => ReadStep::Interrupted,
        Err(e) => ReadStep::Failed(e),
    }
}

/// A source of bytes that can be read in pieces of any size.
///
/// A read with room for at least one byte that delivers zero bytes means that
/// the source is exhausted.
///
/// A source whose content is known to the verifier describes itself through
/// `modelled`, `answers`, `remaining` and `reliable`; one that keeps the
/// defaults (`modelled` false) promises only the shape of each read.
pub trait ByteSource {
    /// The source describes its content through the other spec functions.
    open spec fn modelled(&self) -> bool {
        false
    }

    /// Every answer the source has given, oldest first.
    open spec fn answers(&self) -> Seq<ReadStep> {
        Seq::empty()
    }

    /// The room that each read offered, in the order of `answers`.
    open spec fn rooms(&self) -> Seq<nat> {
        Seq::empty()
    }

    /// The bytes that the source has still to deliver.
    open spec fn remaining(&self) -> Seq<u8> {
        Seq::empty()
    }

    /// Every further read delivers bytes or reports the end.
    open spec fn reliable(&self) -> bool {
        false
    }

    /// Reads some bytes into `buf[start..]` and says how many arrived.
    ///
    /// The bytes land at `buf[start..start + n]`; the bytes before `start`
    /// are left as they were. They are the next `n` bytes of the content,
    /// and zero bytes on non-empty room mean that nothing is left.
    fn read_at(&mut self, buf: &mut [u8], start: usize) -> (r: Result<usize, SourceError>)
        requires
            start <= old(buf)@.len(),
        ensures
            final(buf)@.len() == old(buf)@.len(),
            final(buf)@.subrange(0, start as int) == old(buf)@.subrange(0, start as int),
            r matches Ok(n) ==> start + n <= old(buf)@.len(),
            final(self).modelled() == old(self).modelled(),
            old(self).modelled() ==> final(self).answers() == old(self).answers().push(
                answer_step(r, final(buf)@, start as int),
            ),
            old(self).modelled() ==> final(self).rooms() == old(self).rooms().push(
                (old(buf)@.len() - start) as nat,
            ),
            old(self).modelled() ==> (r matches Ok(n) ==> n <= old(self).remaining().len()
                && final(buf)@.subrange(start as int, start + n) == old(self).remaining().take(
                n as int,
            ) && final(self).remaining() == old(self).remaining().skip(n as int)),
            old(self).modelled() ==> (r == Ok::<usize, SourceError>(0) && start < old(buf)@.len()
                ==> old(self).remaining().len() == 0),
            old(self).modelled() ==> (r == Err::<usize, SourceError>(SourceError::Interrupted)
                ==> final(self).remaining() == old(self).remaining()),
            old(self).modelled() && old(self).reliable() ==> r is Ok && final(self).reliable(),
    ;
}

/// One scripted answer of a [`ScriptedSource`].
pub enum Reply {
    /// Bytes, handed out over as many reads as the room offered asks for.
    Data(Vec<u8>),
    /// Answers one read with [`SourceError::Interrupted`].
    Interrupt,
    /// Answers one read with [`SourceError::Failed`] and this description.
    Fail(String),
}

/// The bytes of one scripted reply.
pub open spec fn reply_bytes(r: Reply) -> Seq<u8> {
    match r {
        Reply::Data(d) => d@,
        _ => Seq::empty(),
    }
}

/// The bytes of a script, in order.
pub open spec fn script_bytes(rs: Seq<Reply>) -> Seq<u8>
    decreases rs.len(),
{
    if rs.len() == 0 {
        Seq::empty()
    } else {
        reply_bytes(rs[0]) + script_bytes(rs.drop_first())
    }
}

/// A source held in memory that answers reads from a script.
///
/// Once the script is used up every read delivers nothing, so the source
/// stays exhausted.
pub struct ScriptedSource {
    replies: Vec<Reply>,
    next: usize,
    current: Vec<u8>,
    answered: Ghost<Seq<ReadStep>>,
    offered: Ghost<Seq<nat>>,
}

proof fn lemma_script_step(rs: Seq<Reply>, i: int)
    requires
        0 <= i < rs.len(),
    ensures
        script_bytes(rs.skip(i)) == reply_bytes(rs[i]) + script_bytes(rs.skip(i + 1)),
{
    assert(rs.skip(i).drop_first() =~= rs.skip(i + 1));
}

fn copy_bytes(d: &Vec<u8>) -> (r: Vec<u8>)
    ensures
        r@ == d@,
{
    let mut r: Vec<u8> = Vec::new();
    let mut i: usize = 0;
    while i < d.len()
        invariant
            i <= d@.len(),
            r@ == d@.take(i as int),
        decreases d@.len() - i,
    {
        r.push(d[i]);
        i = i + 1;
        assert(r@ =~= d@.take(i as int));
    }
    assert(d@.take(i as int) =~= d@);
    r
}

impl ScriptedSource {
    /// A source that answers with `replies`, in order.
    pub fn new(replies: Vec<Reply>) -> (r: Self)
        ensures
            r.modelled(),
            r.answers() == Seq::<ReadStep>::empty(),
            r.rooms() == Seq::<nat>::empty(),
            r.remaining() == script_bytes(replies@),
            r.reliable() == forall|i: int| 0 <= i < replies@.len() ==> #[trigger] replies@[i] is Data,
    {
        let r = ScriptedSource { replies, next: 0, current: Vec::new(), answered: Ghost(Seq::empty()), offered: Ghost(Seq::empty()) };
        assert(r.replies@.skip(0) =~= r.replies@);
        assert(r.current@ + script_bytes(r.replies@) =~= script_bytes(r.replies@));
        r
    }

    /// A source that delivers `data` and then ends.
    pub fn from_bytes(data: Vec<u8>) -> (r: Self)
        ensures
            r.modelled(),
            r.answers() == Seq::<ReadStep>::empty(),
            r.rooms() == Seq::<nat>::empty(),
            r.remaining() == data@,
            r.reliable(),
    {
        let ghost d = data@;
        let mut replies: Vec<Reply> = Vec::new();
        replies.push(Reply::Data(data));
        let r = ScriptedSource { replies, next: 0, current: Vec::new(), answered: Ghost(Seq::empty()), offered: Ghost(Seq::empty()) };
        assert(r.replies@.skip(0) =~= r.replies@);
        assert(r.replies@.drop_first() =~= Seq::<Reply>::empty());
        assert(script_bytes(r.replies@.drop_first()) =~= Seq::<u8>::empty());
        assert(reply_bytes(r.replies@[0]) == d);
        assert(script_bytes(r.replies@) =~= d);
        assert(r.current@ + script_bytes(r.replies@) =~= d);
        r
    }

    /// The replies not yet reached.
    pub closed spec fn rest(&self) -> Seq<Reply> {
        if self.next <= self.replies@.len() {
            self.replies@.skip(self.next as int)
        } else {
            Seq::empty()
        }
    }

    /// Every byte of the script has been delivered and every reply given.
    pub fn is_exhausted(&self) -> (r: bool)
        ensures
            r ==> self.remaining().len() == 0,
    {
        let r = self.current.len() == 0 && self.next >= self.replies.len();
        if r {
            if self.next == self.replies.len() {
                assert(self.replies@.skip(self.next as int) =~= Seq::<Reply>::empty());
            }
            assert(self.current@ + script_bytes(self.rest()) =~= Seq::<u8>::empty());
        }
        r
    }
}

impl ByteSource for ScriptedSource {
    open spec fn modelled(&self) -> bool {
        true
    }

    closed spec fn answers(&self) -> Seq<ReadStep> {
        self.answered@
    }

    closed spec fn rooms(&self) -> Seq<nat> {
        self.offered@
    }

    closed spec fn remaining(&self) -> Seq<u8> {
        self.current@ + script_bytes(self.rest())
    }

    closed spec fn reliable(&self) -> bool {
        forall|i: int| self.next <= i < self.replies@.len() ==> #[trigger] self.replies@[i] is Data
    }

    fn read_at(&mut self, buf: &mut [u8], start: usize) -> (r: Result<usize, SourceError>) {
        let ghost rem0 = self.remaining();
        let ghost rel0 = self.reliable();
        while self.current.len() == 0 && self.next < self.replies.len() && matches!(
            self.replies[self.next],
            Reply::Data(_)
        )
            invariant
                self.remaining() == rem0,
                rel0 ==> self.reliable(),
                self.answered == old(self).answered,
                self.offered == old(self).offered,
            decreases self.replies@.len() - self.next,
        {
            let i = self.next;
            proof {
                lemma_script_step(self.replies@, i as int);
            }
            if let Reply::Data(d) = &self.replies[i] {
                self.current = copy_bytes(d);
            }
            self.next = i + 1;
            assert(self.current@ + script_bytes(self.rest()) =~= rem0);
        }
        let len = buf.len();
        let room = len - start;
        self.offered = Ghost(self.offered@.push(room as nat));
        if self.current.len() > 0 {
            let cur_len = self.current.len();
            let n = if room < cur_len {
                room
            } else {
                cur_len
            };
            let mut j: usize = 0;
            while j < n
                invariant
                    j <= n,
                    n <= room,
                    n <= cur_len,
                    cur_len == self.current@.len(),
                    room == len - start,
                    start <= len,
                    len == old(buf)@.len(),
                    buf@.len() == old(buf)@.len(),
                    buf@.subrange(0, start as int) == old(buf)@.subrange(0, start as int),
                    buf@.subrange(start as int, start + j) == self.current@.take(j as int),
                decreases n - j,
            {
                let ghost before = buf@;
                buf[start + j] = self.current[j];
                assert(buf@.subrange(0, start as int) =~= before.subrange(0, start as int));
                assert(buf@.subrange(start as int, start + j + 1) =~= self.current@.take(j + 1));
                j = j + 1;
            }
            let mut tail: Vec<u8> = Vec::new();
            let mut k: usize = n;
            while k < cur_len
                invariant
                    n <= k <= cur_len,
                    cur_len == self.current@.len(),
                    tail@ == self.current@.subrange(n as int, k as int),
                decreases cur_len - k,
            {
                tail.push(self.current[k]);
                k = k + 1;
                assert(tail@ =~= self.current@.subrange(n as int, k as int));
            }
            let ghost cur = self.current@;
            self.current = tail;
            assert(self.current@ + script_bytes(self.rest()) =~= rem0.skip(n as int));
            assert(cur.take(n as int) =~= rem0.take(n as int));
            let r: Result<usize, SourceError> = Ok(n);
            self.answered = Ghost(self.answered@.push(answer_step(r, buf@, start as int)));
            return r;
        }
        if self.next < self.replies.len() {
            let i = self.next;
            proof {
                lemma_script_step(self.replies@, i as int);
            }
            let r: Result<usize, SourceError> = match &self.replies[i] {
                Reply::Fail(reason) => Err(SourceError::Failed(reason.clone())),
                _ => Err(SourceError::Interrupted),
            };
            self.next = i + 1;
            assert(self.current@ + script_bytes(self.rest()) =~= rem0);
            self.answered = Ghost(self.answered@.push(answer_step(r, buf@, start as int)));
            return r;
        }
        if self.next == self.replies.len() {
            assert(self.replies@.skip(self.next as int) =~= Seq::<Reply>::empty());
        }
        assert(rem0 =~= Seq::<u8>::empty());
        let r: Result<usize, SourceError> = Ok(0);
        self.answered = Ghost(self.answered@.push(answer_step(r, buf@, start as int)));
        r
    }
}

} // verus!
