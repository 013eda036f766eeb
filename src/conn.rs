//! One client connection: its queue of outbound buffers, the write cursor
//! into the front buffer, and the cached write interest.
use std::collections::VecDeque;
use vstd::prelude::*;
use vstd::slice::slice_subrange;
use vstd::slice::slice_to_vec;

verus! {

/// What one non-blocking transfer attempt on a socket came back with.
#[derive(Clone, Copy, Debug, PartialEq, Eq, Structural)]
pub enum IoOutcome {
    /// The call moved this many bytes (for a read, zero means end of stream).
    Transferred(usize),
    /// The socket is not ready; the current drain loop must stop.
    WouldBlock,
    /// Any other I/O error.
    Failed,
}

/// What the read drain loop does after one read attempt.
#[derive(Clone, Copy, Debug, PartialEq, Eq, Structural)]
pub enum ReadStep {
    /// A full transfer buffer came in: read again.
    Continue,
    /// This readiness edge is exhausted: stop reading.
    Drained,
    /// The peer closed its side in an orderly way: stop reading; what is
    /// still queued is written back before the connection is released.
    Closed,
    /// The read failed: remove the connection.
    Failed,
}

/// What the event handler does once a read step is known.
#[derive(Clone, Copy, Debug, PartialEq, Eq, Structural)]
pub enum AfterRead {
    /// Read again: the edge may not be exhausted.
    ReadAgain,
    /// Stop reading and go on to the write drain.
    Write,
    /// The connection is gone: deregister and drop its socket.
    Gone,
}

/// The rule after a read: a full buffer reads again, a read error ends the
/// connection, and anything else, an orderly close included, goes on to
/// writing.
pub open spec fn after_read(step: ReadStep) -> AfterRead {
    match step {
        ReadStep::Continue => AfterRead::ReadAgain,
        ReadStep::Drained => AfterRead::Write,
        ReadStep::Closed => AfterRead::Write,
        ReadStep::Failed => AfterRead::Gone,
    }
}

impl ReadStep {
    /// What the event handler does after this step.
    pub fn next(&self) -> (r: AfterRead)
        ensures
            r == after_read(*self),
    {
        match self {
            ReadStep::Continue => AfterRead::ReadAgain,
            ReadStep::Drained => AfterRead::Write,
            ReadStep::Closed => AfterRead::Write,
            ReadStep::Failed => AfterRead::Gone,
        }
    }
}

/// What the write drain loop does after one write attempt.
#[derive(Clone, Copy, Debug, PartialEq, Eq, Structural)]
pub enum WriteStep {
    /// The front buffer went out whole and another one waits: write again.
    Continue,
    /// Nothing more can or need be written now: stop writing.
    Done,
    /// The write failed: remove the connection.
    Failed,
}

/// Readiness conditions a socket is registered for.
#[derive(Clone, Copy, Debug, PartialEq, Eq, Structural)]
pub enum Interest {
    Read,
    ReadWrite,
}

/// The bytes of a queue of buffers, front to back.
pub open spec fn flatten(bufs: Seq<Vec<u8>>) -> Seq<u8>
    decreases bufs.len(),
{
    if bufs.len() == 0 {
        Seq::empty()
    } else {
        bufs[0]@ + flatten(bufs.drop_first())
    }
}

proof fn lemma_flatten_push(bufs: Seq<Vec<u8>>, b: Vec<u8>)
    ensures
        flatten(bufs.push(b)) == flatten(bufs) + b@,
    decreases bufs.len(),
{
    if bufs.len() == 0 {
        assert(bufs.push(b).drop_first() =~= Seq::<Vec<u8>>::empty());
        assert(bufs.push(b)[0] == b);
        assert(flatten(Seq::<Vec<u8>>::empty()) == Seq::<u8>::empty());
        assert(flatten(bufs.push(b)) =~= b@);
    } else {
        lemma_flatten_push(bufs.drop_first(), b);
        assert(bufs.push(b).drop_first() =~= bufs.drop_first().push(b));
        assert(bufs.push(b)[0] == bufs[0]);
        assert(flatten(bufs.push(b)) =~= flatten(bufs) + b@);
    }
}

/// Runs of bytes joined in order.
pub open spec fn concat(runs: Seq<Seq<u8>>) -> Seq<u8>
    decreases runs.len(),
{
    if runs.len() == 0 {
        Seq::empty()
    } else {
        runs[0] + concat(runs.drop_first())
    }
}

proof fn lemma_concat_views(bufs: Seq<Vec<u8>>)
    ensures
        concat(Seq::new(bufs.len(), |i: int| bufs[i]@)) == flatten(bufs),
    decreases bufs.len(),
{
    let views = Seq::new(bufs.len(), |i: int| bufs[i]@);
    if bufs.len() > 0 {
        lemma_concat_views(bufs.drop_first());
        assert(views.drop_first() =~= Seq::new(
            bufs.drop_first().len(),
            |i: int| bufs.drop_first()[i]@,
        ));
    } else {
        assert(views =~= Seq::<Seq<u8>>::empty());
    }
}

/// Connection state apart from its socket.
pub struct Client {
    bufs: VecDeque<Vec<u8>>,
    pos: usize,
    writable: bool,
    closing: bool,
    /// Every byte read from the peer so far, in arrival order.
    received: Ghost<Seq<u8>>,
    /// Every byte written back to the peer so far, in order.
    delivered: Ghost<Seq<u8>>,
}

impl Client {
    /// Bytes read and not yet written back, in order.
    pub closed spec fn pending(&self) -> Seq<u8> {
        flatten(self.bufs@).skip(self.pos as int)
    }

    /// The runs of bytes still to be written, front first: the unsent tail
    /// of the front buffer, then each later buffer whole. The first run is
    /// what the next write is offered.
    pub closed spec fn chunks(&self) -> Seq<Seq<u8>> {
        Seq::new(
            self.bufs@.len(),
            |i: int|
                if i == 0 {
                    self.bufs@[0]@.skip(self.pos as int)
                } else {
                    self.bufs@[i]@
                },
        )
    }

    pub closed spec fn received(&self) -> Seq<u8> {
        self.received@
    }

    pub closed spec fn delivered(&self) -> Seq<u8> {
        self.delivered@
    }

    /// Whether the socket is registered for writability as well.
    pub closed spec fn write_interest(&self) -> bool {
        self.writable
    }

    /// Whether the peer has closed its side in an orderly way.
    pub closed spec fn closing(&self) -> bool {
        self.closing
    }

    pub closed spec fn wf(&self) -> bool {
        &&& forall|i: int| 0 <= i < self.bufs@.len() ==> #[trigger] self.bufs@[i]@.len() > 0
        &&& self.bufs@.len() == 0 ==> self.pos == 0
        &&& self.bufs@.len() > 0 ==> self.pos < self.bufs@[0]@.len()
        &&& self.received@ == self.delivered@ + self.pending()
    }

    /// How one read result changes a connection, and which step follows:
    /// a non-empty chunk is appended to what waits to be echoed.
    pub open spec fn read_effect(
        pre: Client,
        post: Client,
        outcome: IoOutcome,
        buf: Seq<u8>,
        step: ReadStep,
    ) -> bool {
        &&& post.write_interest() == pre.write_interest()
        &&& post.delivered() == pre.delivered()
        &&& step == match outcome {
            IoOutcome::Transferred(n) => if n == 0 {
                ReadStep::Closed
            } else if n < buf.len() {
                ReadStep::Drained
            } else {
                ReadStep::Continue
            },
            IoOutcome::WouldBlock => ReadStep::Drained,
            IoOutcome::Failed => ReadStep::Failed,
        }
        &&& match outcome {
            IoOutcome::Transferred(n) if n > 0 => {
                &&& post.chunks() == pre.chunks().push(buf.take(n as int))
                &&& post.pending() == pre.pending() + buf.take(n as int)
                &&& post.received() == pre.received() + buf.take(n as int)
                &&& post.closing() == pre.closing()
            },
            IoOutcome::Transferred(_) => {
                &&& post.chunks() == pre.chunks()
                &&& post.pending() == pre.pending()
                &&& post.front() == pre.front()
                &&& post.received() == pre.received()
                &&& post.closing()
            },
            _ => post == pre,
        }
    }

    /// How one write result changes a connection, and which step follows:
    /// the bytes that went out leave the front of what waits.
    pub open spec fn write_effect(pre: Client, post: Client, outcome: IoOutcome, step: WriteStep) -> bool {
        &&& post.write_interest() == pre.write_interest()
        &&& post.received() == pre.received()
        &&& post.closing() == pre.closing()
        &&& match outcome {
            IoOutcome::Transferred(n) => {
                &&& post.chunks() == if pre.chunks().len() == 0 {
                    pre.chunks()
                } else if n == pre.front().len() {
                    pre.chunks().drop_first()
                } else {
                    pre.chunks().update(0, pre.front().skip(n as int))
                }
                &&& post.pending() == pre.pending().skip(n as int)
                &&& post.delivered() == pre.delivered() + pre.pending().take(n as int)
                &&& step == if n == pre.front().len() && post.pending().len() > 0 {
                    WriteStep::Continue
                } else {
                    WriteStep::Done
                }
            },
            IoOutcome::WouldBlock => step == WriteStep::Done && post == pre,
            IoOutcome::Failed => step == WriteStep::Failed && post == pre,
        }
    }

    /// The registration the socket needs, when it differs from the last one
    /// made: read and write exactly while bytes wait.
    pub open spec fn interest_change(&self) -> Option<Interest> {
        if self.write_interest() == (self.pending().len() > 0) {
            None
        } else if self.pending().len() > 0 {
            Some(Interest::ReadWrite)
        } else {
            Some(Interest::Read)
        }
    }

    /// How the outcome of a registration for `interest` changes a
    /// connection: the cached write interest follows it only if it was made.
    pub open spec fn registered_effect(pre: Client, post: Client, interest: Interest, ok: bool) -> bool {
        &&& post.write_interest() == if ok {
            interest == Interest::ReadWrite
        } else {
            pre.write_interest()
        }
        &&& post.chunks() == pre.chunks()
        &&& post.pending() == pre.pending()
        &&& post.front() == pre.front()
        &&& post.received() == pre.received()
        &&& post.delivered() == pre.delivered()
        &&& post.closing() == pre.closing()
    }

    /// A connection as accepted: nothing read, written or queued, and
    /// registered for reading only.
    pub open spec fn is_fresh(&self) -> bool {
        &&& self.wf()
        &&& self.pending().len() == 0
        &&& self.chunks().len() == 0
        &&& self.received().len() == 0
        &&& !self.closing()
        &&& self.delivered().len() == 0
        &&& !self.write_interest()
    }

    /// What waits to be written is the queued runs joined, front first.
    pub proof fn lemma_pending_is_chunks(&self)
        requires
            self.wf(),
        ensures
            self.pending() == concat(self.chunks()),
    {
        let bufs = self.bufs@;
        if bufs.len() == 0 {
            assert(self.chunks() =~= Seq::<Seq<u8>>::empty());
            assert(self.pending() =~= Seq::<u8>::empty());
        } else {
            let rest = bufs.drop_first();
            lemma_concat_views(rest);
            assert(self.chunks().drop_first() =~= Seq::new(rest.len(), |i: int| rest[i]@));
            assert(flatten(bufs) == bufs[0]@ + flatten(rest));
            assert(self.pending() =~= bufs[0]@.skip(self.pos as int) + flatten(rest));
        }
    }

    /// A fresh connection: nothing queued, registered for reading only.
    pub fn new() -> (c: Client)
        ensures
            c.is_fresh(),
            c.pending() == Seq::<u8>::empty(),
            c.received() == Seq::<u8>::empty(),
            c.delivered() == Seq::<u8>::empty(),
            !c.write_interest(),
    {
        let c = Client {
            bufs: VecDeque::new(),
            pos: 0,
            writable: false,
            closing: false,
            received: Ghost(Seq::empty()),
            delivered: Ghost(Seq::empty()),
        };
        assert(c.pending() =~= Seq::<u8>::empty());
        c
    }

    /// Takes in the result of one read into the transfer buffer `buf`: a
    /// non-empty chunk is copied and queued for echo.
    pub fn read(&mut self, outcome: IoOutcome, buf: &[u8]) -> (step: ReadStep)
        requires
            old(self).wf(),
            outcome matches IoOutcome::Transferred(n) ==> n <= buf@.len(),
        ensures
            final(self).wf(),
            Client::read_effect(*old(self), *final(self), outcome, buf@, step),
    {
        match outcome {
            IoOutcome::Transferred(n) => {
                if n == 0 {
                    self.closing = true;
                    ReadStep::Closed
                } else {
                    let chunk = slice_to_vec(slice_subrange(buf, 0, n));
                    proof {
                        lemma_flatten_push(self.bufs@, chunk);
                        assert(chunk@ =~= buf@.take(n as int));
                        let old_flat = flatten(self.bufs@);
                        assert(old_flat.len() >= self.pos) by {
                            if self.bufs@.len() > 0 {
                                assert(old_flat == self.bufs@[0]@ + flatten(self.bufs@.drop_first()));
                            }
                        }
                        assert((old_flat + chunk@).skip(self.pos as int)
                            =~= old_flat.skip(self.pos as int) + chunk@);
                        self.received@ = self.received@ + chunk@;
                    }
                    let ghost pre_chunks = self.chunks();
                    self.bufs.push_back(chunk);
                    proof {
                        assert(self.chunks() =~= pre_chunks.push(buf@.take(n as int)));
                        assert(self.received@ =~= self.delivered@ + self.pending());
                    }
                    if n < buf.len() {
                        ReadStep::Drained
                    } else {
                        ReadStep::Continue
                    }
                }
            },
            IoOutcome::WouldBlock => ReadStep::Drained,
            IoOutcome::Failed => ReadStep::Failed,
        }
    }

    /// The unsent tail of the front buffer; empty when nothing is queued.
    pub closed spec fn front(&self) -> Seq<u8> {
        if self.bufs@.len() == 0 {
            Seq::empty()
        } else {
            self.bufs@[0]@.skip(self.pos as int)
        }
    }

    proof fn lemma_front(&self)
        requires
            self.wf(),
        ensures
            self.front() == self.pending().take(self.front().len() as int),
            self.front().len() > 0 <==> self.pending().len() > 0,
            self.bufs@.len() > 0 ==> self.pending() == self.front() + flatten(
                self.bufs@.drop_first(),
            ),
    {
        if self.bufs@.len() > 0 {
            let f = flatten(self.bufs@);
            assert(f == self.bufs@[0]@ + flatten(self.bufs@.drop_first()));
            assert(self.pending() =~= self.front() + flatten(self.bufs@.drop_first()));
            assert(self.front() =~= self.pending().take(self.front().len() as int));
        } else {
            assert(self.pending() =~= Seq::<u8>::empty());
            assert(self.front() =~= self.pending().take(0));
        }
    }

    /// The bytes the next write should offer: the unsent tail of the front
    /// buffer, or nothing when the queue is empty.
    pub fn pending_front(&self) -> (r: Option<&[u8]>)
        requires
            self.wf(),
        ensures
            r is None <==> self.pending().len() == 0,
            r is None <==> self.chunks().len() == 0,
            self.front().len() <= self.pending().len(),
            r matches Some(b) ==> b@ == self.front() && b@ == self.chunks()[0] && b@.len() > 0,
            self.front() == self.pending().take(self.front().len() as int),
            self.front().len() > 0 <==> self.pending().len() > 0,
    {
        proof {
            self.lemma_front();
        }
        if self.bufs.len() == 0 {
            None
        } else {
            let b = &self.bufs[0];
            Some(slice_subrange(b.as_slice(), self.pos, b.len()))
        }
    }

    /// Takes in the result of one write of the bytes `pending_front` gave:
    /// the cursor advances past what went out, and a buffer sent whole is
    /// dropped from the queue.
    pub fn write(&mut self, outcome: IoOutcome) -> (step: WriteStep)
        requires
            old(self).wf(),
            outcome matches IoOutcome::Transferred(n) ==> n <= old(self).front().len(),
        ensures
            final(self).wf(),
            Client::write_effect(*old(self), *final(self), outcome, step),
    {
        proof {
            self.lemma_front();
        }
        match outcome {
            IoOutcome::Transferred(n) => {
                if self.bufs.len() == 0 {
                    assert(self.pending().skip(n as int) =~= self.pending());
                    assert(self.chunks() =~= Seq::<Seq<u8>>::empty());
                    assert(self.delivered@ + self.pending().take(n as int) =~= self.delivered@);
                    return WriteStep::Done;
                }
                let ghost old_self = *self;
                let front_len = self.bufs[0].len();
                let new_pos = self.pos + n;
                proof {
                    self.delivered@ = self.delivered@ + self.pending().take(n as int);
                }
                if new_pos == front_len {
                    self.bufs.pop_front();
                    self.pos = 0;
                    proof {
                        assert(self.bufs@ == old_self.bufs@.drop_first());
                        assert(self.pending() =~= flatten(old_self.bufs@.drop_first()));
                        assert(self.pending() =~= old_self.pending().skip(n as int));
                        assert forall|i: int| 0 <= i < self.bufs@.len() implies #[trigger] self.bufs@[i]@.len() > 0 by {
                            assert(self.bufs@[i] == old_self.bufs@[i + 1]);
                        }
                        assert forall|i: int| 0 <= i < self.bufs@.len() implies #[trigger] self.chunks()[i]
                            == old_self.chunks().drop_first()[i] by {
                            assert(self.bufs@[i] == old_self.bufs@[i + 1]);
                            assert(self.bufs@[i]@.skip(0) =~= self.bufs@[i]@);
                        }
                        assert(self.chunks() =~= old_self.chunks().drop_first());
                    }
                } else {
                    self.pos = new_pos;
                    assert(self.pending() =~= old_self.pending().skip(n as int));
                    assert(self.chunks()[0] =~= old_self.front().skip(n as int));
                    assert(self.chunks() =~= old_self.chunks().update(0, old_self.front().skip(n as int)));
                }
                proof {
                    assert(self.received@ =~= self.delivered@ + self.pending());
                }
                if new_pos == front_len && self.bufs.len() > 0 {
                    WriteStep::Continue
                } else {
                    WriteStep::Done
                }
            },
            IoOutcome::WouldBlock => WriteStep::Done,
            IoOutcome::Failed => WriteStep::Failed,
        }
    }

    /// Whether the peer has closed its side.
    pub fn is_closing(&self) -> (r: bool)
        ensures
            r == self.closing(),
    {
        self.closing
    }

    /// The registration the socket needs now, or `None` when the last one
    /// made already matches the queue. Changes nothing.
    pub fn wanted_interest(&self) -> (r: Option<Interest>)
        requires
            self.wf(),
        ensures
            r == self.interest_change(),
    {
        proof {
            self.lemma_front();
        }
        let has_pending = self.bufs.len() > 0;
        if has_pending != self.writable {
            if has_pending {
                Some(Interest::ReadWrite)
            } else {
                Some(Interest::Read)
            }
        } else {
            None
        }
    }

    /// Takes in the outcome of registering the socket for `interest`: the
    /// cached write interest changes only when the registration was made.
    pub fn reregister(&mut self, interest: Interest, ok: bool)
        requires
            old(self).wf(),
        ensures
            final(self).wf(),
            Client::registered_effect(*old(self), *final(self), interest, ok),
    {
        if ok {
            self.writable = interest == Interest::ReadWrite;
        }
    }
}

/// Interest convergence: the registration that `interest_change` asks for,
/// once made, leaves write interest set exactly while bytes wait; and when it
/// asks for none, that already holds.
pub proof fn lemma_interest_convergence(pre: Client, post: Client, interest: Interest)
    requires
        pre.wf(),
        Client::registered_effect(pre, post, interest, true),
        pre.interest_change() == Some(interest),
    ensures
        post.write_interest() == (post.pending().len() > 0),
        post.interest_change() is None,
{
}

/// Echo identity: once nothing waits to be written, the bytes written back
/// to the peer are exactly the bytes read from it, in the same order.
pub proof fn lemma_echo_identity(c: Client)
    requires
        c.wf(),
        c.pending().len() == 0,
    ensures
        c.delivered() == c.received(),
{
    assert(c.delivered() + c.pending() =~= c.delivered());
}

/// No loss and no duplication, whatever sizes the writes were cut into:
/// what was written back is always a prefix of what was read, and the rest
/// of what was read is exactly what waits.
pub proof fn lemma_delivered_prefix(c: Client)
    requires
        c.wf(),
    ensures
        c.delivered().len() <= c.received().len(),
        c.received().take(c.delivered().len() as int) == c.delivered(),
        c.received().skip(c.delivered().len() as int) == c.pending(),
{
    assert(c.received().take(c.delivered().len() as int) =~= c.delivered());
    assert(c.received().skip(c.delivered().len() as int) =~= c.pending());
}

/// Partial-write safety over a run of write steps with no read in between,
/// whatever sizes the writes were cut into: once the queue is empty, exactly
/// the bytes that were waiting at the start have been written back, each
/// once and in order.
pub proof fn lemma_write_run(states: Seq<Client>, outcomes: Seq<IoOutcome>, steps: Seq<WriteStep>)
    requires
        states.len() == outcomes.len() + 1,
        steps.len() == outcomes.len(),
        forall|i: int| 0 <= i < states.len() ==> (#[trigger] states[i]).wf(),
        forall|i: int|
            0 <= i < outcomes.len() ==> Client::write_effect(
                #[trigger] states[i],
                states[i + 1],
                outcomes[i],
                steps[i],
            ),
        states.last().pending().len() == 0,
    ensures
        states.last().delivered() == states[0].delivered() + states[0].pending(),
{
    lemma_received_constant(states, outcomes, steps, outcomes.len() as int);
    lemma_echo_identity(states.last());
}

proof fn lemma_received_constant(
    states: Seq<Client>,
    outcomes: Seq<IoOutcome>,
    steps: Seq<WriteStep>,
    k: int,
)
    requires
        states.len() == outcomes.len() + 1,
        steps.len() == outcomes.len(),
        0 <= k <= outcomes.len(),
        forall|i: int|
            0 <= i < outcomes.len() ==> Client::write_effect(
                #[trigger] states[i],
                states[i + 1],
                outcomes[i],
                steps[i],
            ),
    ensures
        states[k].received() == states[0].received(),
    decreases k,
{
    if k > 0 {
        lemma_received_constant(states, outcomes, steps, k - 1);
        assert(Client::write_effect(states[k - 1], states[k], outcomes[k - 1], steps[k - 1]));
    }
}

} // verus!
