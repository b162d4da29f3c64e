//! The transport capability: the abstract read/write contract the codec
//! requires from whatever moves bytes, plus two buffer-backed transports of
//! the crate's own (a staging queue for feeding the decoder by hand, and a
//! fixed buffer sink for encoding into a pre-sized output region).
//!
//! A transport is modelled by the bytes it holds: a queue of pending input
//! on the receiving side, the accepted bytes and the remaining room on the
//! transmitting side.  The method contracts say exactly how each call moves
//! bytes against that model — complete only when everything asked for was
//! moved, partial with exactly the prefix that fit, would-block when nothing
//! is there — which is what lets every codec theorem go through.  The two
//! transports here satisfy the contracts by proof; the codec itself still
//! handles the whole status surface (partials, would-block, hard errors), so
//! its behaviour is pinned for any transport honouring this contract.

use vstd::prelude::*;

verus! {

/// How much of a requested transfer the transport performed.
/// `Complete` means every requested byte was moved; `Partial(n)` means only
/// the first `n` bytes were, and the caller must ask again for the rest.
pub enum TransmissionStatus {
    Complete,
    Partial(usize),
}

/// `WouldBlock` is the non-error retry signal: no data (or no capacity) right
/// now, try again later.  `Fatal` is a hard, non-retryable failure of the
/// current call, such as an in-progress frame outgrowing its buffer.
#[derive(Clone, Copy, Debug, PartialEq, Eq, Structural)]
pub enum CodecError {
    WouldBlock,
    Fatal,
}

/// The staging-queue overflow error: the bytes were not added.
#[derive(Clone, Copy, Debug, PartialEq, Eq, Structural)]
pub struct CapacityError;

/// The views of a list of byte chunks.
pub open spec fn spec_views(s: Seq<Vec<u8>>) -> Seq<Seq<u8>> {
    s.map_values(|v: Vec<u8>| v@)
}

/// The logical concatenation of a list of byte chunks.
pub open spec fn spec_concat(s: Seq<Seq<u8>>) -> Seq<u8>
    decreases s.len(),
{
    if s.len() == 0 {
        Seq::empty()
    } else {
        spec_concat(s.drop_last()) + s.last()
    }
}

/// The concatenation of five chunks, written out.
pub proof fn lemma_concat5(a: Seq<u8>, b: Seq<u8>, c: Seq<u8>, d: Seq<u8>, e: Seq<u8>)
    ensures
        spec_concat(seq![a, b, c, d, e]) == a + b + c + d + e,
{
    let s5 = seq![a, b, c, d, e];
    let s4 = seq![a, b, c, d];
    let s3 = seq![a, b, c];
    let s2 = seq![a, b];
    let s1 = seq![a];
    let s0 = Seq::<Seq<u8>>::empty();
    assert(s5.drop_last() =~= s4);
    assert(s4.drop_last() =~= s3);
    assert(s3.drop_last() =~= s2);
    assert(s2.drop_last() =~= s1);
    assert(s1.drop_last() =~= s0);
    assert(spec_concat(s0) =~= Seq::<u8>::empty());
    assert(spec_concat(s1) =~= a);
    assert(spec_concat(s2) =~= a + b);
    assert(spec_concat(s3) =~= a + b + c);
    assert(spec_concat(s4) =~= a + b + c + d);
    assert(spec_concat(s5) =~= a + b + c + d + e);
}

/// The receiving half of the transport capability.  A transport is modelled
/// by the queue of bytes it would deliver next (`pending`); `receive` drains
/// from its front.
pub trait RxTransport: Sized {
    /// The bytes this transport would deliver next, oldest first.
    spec fn pending(&self) -> Seq<u8>;

    /// Attempt to fill `buffer` from the front of the pending bytes.
    /// `Complete` is returned only when every byte of `buffer` was
    /// overwritten; otherwise exactly the first `n` bytes are valid and
    /// `Partial(n)` is returned, or `WouldBlock` if nothing is available.
    fn receive(&mut self, buffer: &mut Vec<u8>) -> (r: Result<TransmissionStatus, CodecError>)
        ensures
            final(buffer)@.len() == old(buffer)@.len(),
            match r {
                Ok(TransmissionStatus::Complete) => {
                    &&& old(buffer)@.len() <= old(self).pending().len()
                    &&& final(buffer)@ == old(self).pending().take(old(buffer)@.len() as int)
                    &&& final(self).pending() == old(self).pending().skip(
                        old(buffer)@.len() as int,
                    )
                },
                Ok(TransmissionStatus::Partial(n)) => {
                    &&& 0 < n < old(buffer)@.len()
                    &&& n == old(self).pending().len()
                    &&& final(buffer)@ == old(self).pending() + old(buffer)@.skip(n as int)
                    &&& final(self).pending() == Seq::<u8>::empty()
                },
                Err(CodecError::WouldBlock) => {
                    &&& old(buffer)@.len() > 0
                    &&& old(self).pending().len() == 0
                    &&& final(buffer)@ == old(buffer)@
                    &&& final(self).pending() == old(self).pending()
                },
                Err(CodecError::Fatal) => false,
            },
    ;

    /// Hook invoked exactly once at the start of each top-level decode call,
    /// for side effects outside the byte stream.
    fn before_receive(&mut self)
        ensures
            final(self).pending() == old(self).pending(),
    ;

    /// Hook invoked exactly once when a frame is accepted, before its payload
    /// is handed to the caller.
    fn after_receive(&mut self)
        ensures
            final(self).pending() == old(self).pending(),
    ;
}

/// The transmitting half of the transport capability.  A transport is
/// modelled by the bytes it has accepted so far (`sent`) and the space it can
/// still accept (`room`).
pub trait TxTransport: Sized {
    /// All bytes this transport has accepted so far, in order.
    spec fn sent(&self) -> Seq<u8>;

    /// How many more bytes the transport can accept right now.
    spec fn room(&self) -> nat;

    /// Send the ordered chunks, logically concatenated, without requiring the
    /// caller to concatenate them into one buffer.  `Complete` is returned
    /// only when every byte was accepted; a transport out of space accepts
    /// what fits and reports `Partial` with the count it took.
    fn transmit(&mut self, chunks: &Vec<Vec<u8>>) -> (r: Result<TransmissionStatus, CodecError>)
        ensures
            ({
                let data = spec_concat(spec_views(chunks@));
                match r {
                    Ok(TransmissionStatus::Complete) => {
                        &&& data.len() <= old(self).room()
                        &&& final(self).sent() == old(self).sent() + data
                        &&& final(self).room() == old(self).room() - data.len()
                    },
                    Ok(TransmissionStatus::Partial(n)) => {
                        &&& n as nat == old(self).room()
                        &&& old(self).room() < data.len()
                        &&& final(self).sent() == old(self).sent() + data.take(n as int)
                        &&& final(self).room() == 0
                    },
                    Err(_) => false,
                }
            }),
    ;

    /// Hook invoked exactly once at the start of each top-level encode call.
    fn before_transmit(&mut self)
        ensures
            final(self).sent() == old(self).sent(),
            final(self).room() == old(self).room(),
    ;

    /// Hook invoked exactly once at the end of each top-level encode call.
    fn after_transmit(&mut self)
        ensures
            final(self).sent() == old(self).sent(),
            final(self).room() == old(self).room(),
    ;
}

/// A bounded FIFO of staged input bytes, used as the decoder's transport by
/// callers that just push bytes in and pull messages out.
pub struct StagingBuffer {
    bytes: Vec<u8>,
    limit: usize,
}

impl StagingBuffer {
    /// The bound of the staging queue.
    pub closed spec fn spec_limit(&self) -> nat {
        self.limit as nat
    }

    /// An empty staging queue that holds at most `limit` bytes.
    pub fn new(limit: usize) -> (r: StagingBuffer)
        ensures
            r.pending() == Seq::<u8>::empty(),
            r.spec_limit() == limit,
    {
        StagingBuffer { bytes: Vec::new(), limit }
    }

    /// Append `input` to the staged bytes; on overflow nothing is added.
    pub fn stage(&mut self, input: &[u8]) -> (r: Result<(), CapacityError>)
        ensures
            final(self).spec_limit() == old(self).spec_limit(),
            if old(self).pending().len() + input@.len() <= old(self).spec_limit() {
                r == Ok::<(), CapacityError>(()) && final(self).pending() == old(self).pending()
                    + input@
            } else {
                r == Err::<(), CapacityError>(CapacityError) && final(self).pending() == old(
                    self,
                ).pending()
            },
    {
        if input.len() <= self.limit && self.bytes.len() <= self.limit - input.len() {
            self.bytes.extend_from_slice(input);
            Ok(())
        } else {
            Err(CapacityError)
        }
    }

    /// Remove and return everything currently staged.
    pub fn take_all(&mut self) -> (r: Vec<u8>)
        ensures
            final(self).spec_limit() == old(self).spec_limit(),
            r@ == old(self).pending(),
            final(self).pending() == Seq::<u8>::empty(),
    {
        let mut out: Vec<u8> = Vec::new();
        core::mem::swap(&mut out, &mut self.bytes);
        out
    }
}

impl RxTransport for StagingBuffer {
    closed spec fn pending(&self) -> Seq<u8> {
        self.bytes@
    }

    fn receive(&mut self, buffer: &mut Vec<u8>) -> (r: Result<TransmissionStatus, CodecError>) {
        let want = buffer.len();
        let have = self.bytes.len();
        let ghost pend0 = self.bytes@;
        let ghost buf0 = buffer@;
        if have == 0 {
            if want == 0 {
                proof {
                    assert(final(buffer)@ =~= pend0.take(0));
                    assert(pend0.skip(0) =~= pend0);
                }
                Ok(TransmissionStatus::Complete)
            } else {
                Err(CodecError::WouldBlock)
            }
        } else if have < want {
            let mut i: usize = 0;
            proof {
                assert(buffer@ =~= pend0.take(0) + buf0.skip(0));
            }
            while i < have
                invariant
                    i <= have,
                    have == pend0.len() < buf0.len(),
                    self.bytes@ == pend0,
                    buffer@.len() == buf0.len(),
                    buffer@ == pend0.take(i as int) + buf0.skip(i as int),
                decreases have - i,
            {
                let b = self.bytes[i];
                buffer[i] = b;
                i = i + 1;
                proof {
                    assert(buffer@ =~= pend0.take(i as int) + buf0.skip(i as int));
                }
            }
            self.bytes.clear();
            proof {
                assert(pend0.take(have as int) =~= pend0);
            }
            Ok(TransmissionStatus::Partial(have))
        } else {
            let mut i: usize = 0;
            proof {
                assert(buffer@ =~= pend0.take(0) + buf0.skip(0));
            }
            while i < want
                invariant
                    i <= want,
                    want <= have == pend0.len(),
                    want <= buf0.len(),
                    self.bytes@ == pend0,
                    buffer@.len() == buf0.len(),
                    buffer@ == pend0.take(i as int) + buf0.skip(i as int),
                decreases want - i,
            {
                let b = self.bytes[i];
                buffer[i] = b;
                i = i + 1;
                proof {
                    assert(buffer@ =~= pend0.take(i as int) + buf0.skip(i as int));
                }
            }
            let mut rest: Vec<u8> = Vec::new();
            let mut j: usize = want;
            while j < have
                invariant
                    want <= j <= have == pend0.len(),
                    self.bytes@ == pend0,
                    rest@ == pend0.subrange(want as int, j as int),
                decreases have - j,
            {
                let b = self.bytes[j];
                rest.push(b);
                j = j + 1;
                proof {
                    assert(rest@ =~= pend0.subrange(want as int, j as int));
                }
            }
            self.bytes = rest;
            proof {
                assert(buffer@ =~= pend0.take(want as int));
                assert(self.bytes@ =~= pend0.skip(want as int));
            }
            Ok(TransmissionStatus::Complete)
        }
    }

    fn before_receive(&mut self) {
    }

    fn after_receive(&mut self) {
    }
}

/// A transmit target that copies each chunk into a fixed, pre-sized buffer,
/// advancing a cursor; what does not fit is dropped and reported as partial.
pub struct BufferSink {
    buf: Vec<u8>,
    cursor: usize,
}

impl BufferSink {
    /// A sink over a fresh zeroed buffer of `size` bytes.
    pub fn new(size: usize) -> (r: BufferSink)
        ensures
            r.sent() == Seq::<u8>::empty(),
            r.room() == size,
    {
        let buf: Vec<u8> = vec![0u8; size];
        proof {
            assert(buf@.take(0) =~= Seq::<u8>::empty());
        }
        BufferSink { buf, cursor: 0 }
    }

    /// Hand the underlying buffer back: the accepted bytes, then whatever of
    /// the initial contents was never overwritten.
    pub fn into_buffer(self) -> (r: Vec<u8>)
        ensures
            r@.len() == self.sent().len() + self.room(),
            r@.take(self.sent().len() as int) == self.sent(),
    {
        self.buf
    }
}

impl TxTransport for BufferSink {
    closed spec fn sent(&self) -> Seq<u8> {
        if self.cursor <= self.buf@.len() {
            self.buf@.take(self.cursor as int)
        } else {
            self.buf@
        }
    }

    closed spec fn room(&self) -> nat {
        if self.cursor <= self.buf@.len() {
            (self.buf@.len() - self.cursor) as nat
        } else {
            0
        }
    }

    fn transmit(&mut self, chunks: &Vec<Vec<u8>>) -> (r: Result<TransmissionStatus, CodecError>) {
        let len = self.buf.len();
        let mut cur: usize = if self.cursor <= len {
            self.cursor
        } else {
            len
        };
        let start_room: usize = len - cur;
        let ghost sent0 = self.sent();
        let ghost buflen0 = self.buf@.len();
        let ghost room0 = self.room();
        let ghost views = spec_views(chunks@);
        let mut complete = true;
        let mut ci: usize = 0;
        proof {
            assert(spec_concat(views.take(0)) =~= Seq::<u8>::empty());
            assert(self.buf@.take(cur as int) =~= sent0 + Seq::<u8>::empty());
        }
        while ci < chunks.len()
            invariant
                ci <= chunks@.len(),
                views == spec_views(chunks@),
                self.buf@.len() == buflen0,
                len == buflen0,
                sent0.len() + room0 == buflen0,
                ({
                    let z = spec_concat(views.take(ci as int));
                    let w: nat = if z.len() <= room0 {
                        z.len()
                    } else {
                        room0
                    };
                    &&& cur as nat == sent0.len() + w
                    &&& self.buf@.take(cur as int) == sent0 + z.take(w as int)
                    &&& complete == (z.len() <= room0)
                }),
            decreases chunks@.len() - ci,
        {
            let chunk_len = chunks[ci].len();
            let ghost z_outer = spec_concat(views.take(ci as int));
            let mut bi: usize = 0;
            proof {
                assert(z_outer + views[ci as int].take(0) =~= z_outer);
            }
            while bi < chunk_len
                invariant
                    bi <= chunk_len,
                    ci < chunks@.len(),
                    chunk_len == views[ci as int].len(),
                    views == spec_views(chunks@),
                    chunks@[ci as int]@ == views[ci as int],
                    self.buf@.len() == buflen0,
                    len == buflen0,
                    sent0.len() + room0 == buflen0,
                    z_outer == spec_concat(views.take(ci as int)),
                    ({
                        let z = z_outer + views[ci as int].take(bi as int);
                        let w: nat = if z.len() <= room0 {
                            z.len()
                        } else {
                            room0
                        };
                        &&& cur as nat == sent0.len() + w
                        &&& self.buf@.take(cur as int) == sent0 + z.take(w as int)
                        &&& complete == (z.len() <= room0)
                    }),
                decreases chunk_len - bi,
            {
                let ghost z_old = z_outer + views[ci as int].take(bi as int);
                let b = chunks[ci][bi];
                proof {
                    assert(z_outer + views[ci as int].take(bi + 1) =~= z_old.push(b));
                }
                if cur < len {
                    let ghost buf_old = self.buf@;
                    self.buf[cur] = b;
                    cur = cur + 1;
                    proof {
                        assert(self.buf@.take(cur as int) =~= buf_old.take(cur - 1).push(b));
                        assert(z_old.push(b).take(z_old.len() as int + 1) =~= z_old.take(
                            z_old.len() as int,
                        ).push(b));
                        assert(z_old.take(z_old.len() as int) =~= z_old);
                    }
                } else {
                    complete = false;
                    proof {
                        assert(z_old.push(b).take(room0 as int) =~= z_old.take(room0 as int));
                    }
                }
                bi = bi + 1;
            }
            ci = ci + 1;
            proof {
                assert(views.take(ci as int).drop_last() =~= views.take(ci - 1));
                assert(spec_concat(views.take(ci as int)) =~= z_outer + views[ci - 1]);
            }
        }
        self.cursor = cur;
        let ghost data = spec_concat(views);
        proof {
            assert(views.take(views.len() as int) =~= views);
        }
        if complete {
            proof {
                assert(data.take(data.len() as int) =~= data);
            }
            Ok(TransmissionStatus::Complete)
        } else {
            Ok(TransmissionStatus::Partial(start_room))
        }
    }

    fn before_transmit(&mut self) {
    }

    fn after_transmit(&mut self) {
    }
}

} // verus!
