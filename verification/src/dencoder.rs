//! Encode messages into length-prefixed, checksummed frames and decode such
//! frames back out of a byte stream.

use vstd::prelude::*;
use crate::frame::{
    MAGIC_BYTE,
    spec_frame,
    spec_frame_size,
    spec_checksum,
    spec_be_bytes,
    pow256,
    encode_len,
    decode_len,
    compute_checksum,
    lemma_pow256_le_u64,
    lemma_pow256_mono,
    lemma_frame_len,
};
use crate::transport::{
    TransmissionStatus,
    CodecError,
    CapacityError,
    RxTransport,
    TxTransport,
    BufferSink,
    StagingBuffer,
    spec_concat,
    spec_views,
    lemma_concat5,
};
use crate::machine::{
    LoadStatus,
    DecodeOutcome,
    spec_load,
    spec_step,
    scan_magic,
    lemma_scan_magic_len,
};

verus! {

/// The encoding capability: wrap a message in a frame and hand it to the
/// transport in one call.
pub trait EncoderT {
    /// Well-formedness of this encoder's configuration.
    spec fn wf(&self) -> bool;

    /// Frame `msg` and transmit it.
    fn write(&mut self, msg: &[u8]) -> (r: Result<(), ()>)
        requires
            old(self).wf(),
        ensures
            final(self).wf(),
    ;
}

/// One-shot frame encoder over a transmit transport.  It carries no state
/// across calls: each `write` is self-contained.
pub struct Encoder<T: TxTransport> {
    transport: T,
    len_prefix_bytes: usize,
    checksum_bytes: usize,
}

impl<T: TxTransport> Encoder<T> {
    /// Width in bytes of the length field (and of the length checksum).
    pub closed spec fn spec_p(&self) -> nat {
        self.len_prefix_bytes as nat
    }

    /// Width in bytes of the payload checksum.
    pub closed spec fn spec_c(&self) -> nat {
        self.checksum_bytes as nat
    }

    /// The transport this encoder writes through.
    pub closed spec fn spec_transport(&self) -> T {
        self.transport
    }

    pub open spec fn spec_wf(&self) -> bool {
        &&& 1 <= self.spec_p() <= 8
        &&& self.spec_c() <= 32
    }

    /// An encoder over `transport` with a `len_prefix_bytes`-byte length
    /// field and a `checksum_bytes`-byte payload checksum.
    pub fn new(transport: T, len_prefix_bytes: usize, checksum_bytes: usize) -> (r: Encoder<T>)
        requires
            1 <= len_prefix_bytes <= 8,
            checksum_bytes <= 32,
        ensures
            r.spec_wf(),
            r.spec_p() == len_prefix_bytes,
            r.spec_c() == checksum_bytes,
            r.spec_transport() == transport,
    {
        Encoder { transport, len_prefix_bytes, checksum_bytes }
    }

    /// Hand the transport back, consuming the encoder.
    pub fn into_transport(self) -> (t: T)
        ensures
            t == self.spec_transport(),
    {
        self.transport
    }

    /// Wrap `msg` in the magic byte, length prefix and the two checksums, and
    /// hand the chunks to the transport in a single transmit call.
    ///
    /// A message too long for the length field is rejected before any
    /// transport interaction.  A partial transmit is accepted but not
    /// retried: it is reported by the transport's status and the call still
    /// succeeds, a deliberate limitation of this design.
    pub fn write_msg(&mut self, msg: &[u8]) -> (r: Result<(), ()>)
        requires
            old(self).spec_wf(),
        ensures
            final(self).spec_wf(),
            final(self).spec_p() == old(self).spec_p(),
            final(self).spec_c() == old(self).spec_c(),
            ({
                let t0 = old(self).spec_transport();
                let t1 = final(self).spec_transport();
                if msg@.len() >= pow256(old(self).spec_p()) {
                    r == Err::<(), ()>(()) && t1 == t0
                } else {
                    let frame = spec_frame(old(self).spec_p(), old(self).spec_c(), msg@);
                    &&& r == Ok::<(), ()>(())
                    &&& if frame.len() <= t0.room() {
                        t1.sent() == t0.sent() + frame && t1.room() == t0.room() - frame.len()
                    } else {
                        t1.sent() == t0.sent() + frame.take(t0.room() as int) && t1.room() == 0
                    }
                }
            }),
    {
        let p = self.len_prefix_bytes;
        let c = self.checksum_bytes;
        let mut limit: u128 = 1;
        let mut i: usize = 0;
        while i < p
            invariant
                i <= p <= 8,
                limit == pow256(i as nat),
            decreases p - i,
        {
            proof {
                lemma_pow256_mono((i + 1) as nat, 8);
                lemma_pow256_le_u64(8);
            }
            limit = limit * 256;
            i = i + 1;
        }
        let msg_len = msg.len();
        if msg_len as u128 >= limit {
            return Err(());
        }
        let len_buf = encode_len(msg_len as u64, p);
        let len_ck = compute_checksum(len_buf.as_slice(), p);
        let msg_ck = compute_checksum(msg, c);
        let ghost frame = spec_frame(p as nat, c as nat, msg@);
        self.transport.before_transmit();
        let mut magic: Vec<u8> = Vec::new();
        magic.push(MAGIC_BYTE);
        let mut chunks: Vec<Vec<u8>> = Vec::new();
        chunks.push(magic);
        chunks.push(len_buf);
        chunks.push(len_ck);
        chunks.push(vstd::slice::slice_to_vec(msg));
        chunks.push(msg_ck);
        proof {
            assert(spec_views(chunks@) =~= seq![
                seq![MAGIC_BYTE],
                spec_be_bytes(msg@.len(), p as nat),
                spec_checksum(spec_be_bytes(msg@.len(), p as nat), p as nat),
                msg@,
                spec_checksum(msg@, c as nat),
            ]);
            lemma_concat5(
                seq![MAGIC_BYTE],
                spec_be_bytes(msg@.len(), p as nat),
                spec_checksum(spec_be_bytes(msg@.len(), p as nat), p as nat),
                msg@,
                spec_checksum(msg@, c as nat),
            );
            assert(spec_concat(spec_views(chunks@)) == frame);
        }
        let status = self.transport.transmit(&chunks);
        match status {
            Ok(TransmissionStatus::Complete) => {},
            Ok(TransmissionStatus::Partial(_n)) => {
                // Partial transmit is reported by the transport, not retried.
            },
            Err(_) => {},
        }
        self.transport.after_transmit();
        Ok(())
    }
}

impl<T: TxTransport> EncoderT for Encoder<T> {
    open spec fn wf(&self) -> bool {
        self.spec_wf()
    }

    fn write(&mut self, msg: &[u8]) -> (r: Result<(), ()>) {
        self.write_msg(msg)
    }
}

impl Encoder<BufferSink> {
    /// Wrap `msg` in its frame and write the frame into `out`, which must
    /// already have exactly the frame's size; any other size fails without
    /// touching `out`.  Internally a throwaway buffer-sink encoder does the
    /// framing.
    pub fn write_plain(
        len_prefix_bytes: usize,
        checksum_bytes: usize,
        msg: &[u8],
        out: &mut Vec<u8>,
    ) -> (r: Result<(), ()>)
        requires
            1 <= len_prefix_bytes <= 8,
            checksum_bytes <= 32,
        ensures
            ({
                let p = len_prefix_bytes as nat;
                let c = checksum_bytes as nat;
                if old(out)@.len() != spec_frame_size(p, c, msg@.len()) {
                    r == Err::<(), ()>(()) && final(out)@ == old(out)@
                } else if msg@.len() >= pow256(p) {
                    r == Err::<(), ()>(()) && final(out)@ == old(out)@
                } else {
                    r == Ok::<(), ()>(()) && final(out)@ == spec_frame(p, c, msg@)
                }
            }),
    {
        let overhead = 1 + 2 * len_prefix_bytes + checksum_bytes;
        if out.len() < overhead || out.len() - overhead != msg.len() {
            return Err(());
        }
        let size_out = out.len();
        let sink = BufferSink::new(size_out);
        let mut enc = Encoder::new(sink, len_prefix_bytes, checksum_bytes);
        match enc.write_msg(msg) {
            Ok(()) => {},
            Err(()) => {
                return Err(());
            },
        }
        proof {
            lemma_frame_len(len_prefix_bytes as nat, checksum_bytes as nat, msg@);
        }
        let filled = enc.transport.into_buffer();
        proof {
            let frame = spec_frame(len_prefix_bytes as nat, checksum_bytes as nat, msg@);
            assert(filled@.take(frame.len() as int) =~= filled@);
        }
        *out = filled;
        Ok(())
    }
}

/// The decoding capability: pull bytes from the transport until one whole
/// validated frame's payload can be handed out.
pub trait DecoderT {
    /// Well-formedness of this decoder's configuration.
    spec fn wf(&self) -> bool;

    /// What the configuration asks of the caller's capacity argument.
    spec fn read_req(&self, capacity: usize) -> bool;

    /// Resume decoding; on success overwrite `buffer` with the payload.
    fn read(&mut self, buffer: &mut Vec<u8>, capacity: usize) -> (r: Result<(), CodecError>)
        requires
            old(self).wf(),
            old(self).read_req(capacity),
        ensures
            final(self).wf(),
    ;
}

/// Copy `src[start..end]` into a fresh vector.
fn copy_range(src: &Vec<u8>, start: usize, end: usize) -> (r: Vec<u8>)
    requires
        start <= end <= src@.len(),
    ensures
        r@ == src@.subrange(start as int, end as int),
{
    let mut r: Vec<u8> = Vec::new();
    let mut i: usize = start;
    proof {
        assert(r@ =~= src@.subrange(start as int, start as int));
    }
    while i < end
        invariant
            start <= i <= end <= src@.len(),
            r@ == src@.subrange(start as int, i as int),
        decreases end - i,
    {
        let b = src[i];
        r.push(b);
        i = i + 1;
        proof {
            assert(r@ =~= src@.subrange(start as int, i as int));
        }
    }
    r
}

/// Bytewise equality of two vectors.
fn eq_bytes(a: &Vec<u8>, b: &Vec<u8>) -> (r: bool)
    ensures
        r == (a@ == b@),
{
    if a.len() != b.len() {
        return false;
    }
    let mut i: usize = 0;
    while i < a.len()
        invariant
            i <= a@.len() == b@.len(),
            forall|j: int| 0 <= j < i ==> a@[j] == b@[j],
        decreases a@.len() - i,
    {
        if a[i] != b[i] {
            return false;
        }
        i = i + 1;
    }
    proof {
        assert(a@ =~= b@);
    }
    true
}

/// Resumable frame decoder over a receive transport.  It owns the
/// accumulated bytes of the one in-flight frame; the decode phase is always
/// recomputed from how many bytes have accumulated, so any call picks up
/// exactly where the previous one left off.
pub struct Decoder<T: RxTransport> {
    transport: T,
    incoming_message: Vec<u8>,
    len_prefix_bytes: usize,
    checksum_bytes: usize,
    buf_size: usize,
}

impl<T: RxTransport> Decoder<T> {
    /// Width in bytes of the length field (and of the length checksum).
    pub closed spec fn spec_p(&self) -> nat {
        self.len_prefix_bytes as nat
    }

    /// Width in bytes of the payload checksum.
    pub closed spec fn spec_c(&self) -> nat {
        self.checksum_bytes as nat
    }

    /// Bound on the accumulated bytes of the in-flight frame.
    pub closed spec fn spec_buf_size(&self) -> nat {
        self.buf_size as nat
    }

    /// The accumulated bytes of the in-flight frame, magic byte first.
    pub closed spec fn spec_acc(&self) -> Seq<u8> {
        self.incoming_message@
    }

    /// The transport this decoder reads from.
    pub closed spec fn spec_transport(&self) -> T {
        self.transport
    }

    /// The bytes the transport would deliver next.
    pub open spec fn spec_pending(&self) -> Seq<u8> {
        self.spec_transport().pending()
    }

    pub open spec fn spec_wf(&self) -> bool {
        &&& 1 <= self.spec_p() <= 8
        &&& self.spec_c() <= 32
        &&& 1 <= self.spec_buf_size()
        &&& self.spec_acc().len() <= self.spec_buf_size()
    }

    /// A decoder over `transport` with a `len_prefix_bytes`-byte length
    /// field, a `checksum_bytes`-byte payload checksum, and room for
    /// `buf_size` accumulated bytes.
    pub fn new(transport: T, len_prefix_bytes: usize, checksum_bytes: usize, buf_size: usize) -> (r:
        Decoder<T>)
        requires
            1 <= len_prefix_bytes <= 8,
            checksum_bytes <= 32,
            1 <= buf_size,
        ensures
            r.spec_wf(),
            r.spec_p() == len_prefix_bytes,
            r.spec_c() == checksum_bytes,
            r.spec_buf_size() == buf_size,
            r.spec_acc() == Seq::<u8>::empty(),
            r.spec_transport() == transport,
    {
        Decoder { transport, incoming_message: Vec::new(), len_prefix_bytes, checksum_bytes, buf_size }
    }

    /// Append `data[..n]` to the accumulated bytes, stopping at the bound.
    fn append_up_to(&mut self, data: &Vec<u8>, n: usize) -> (ok: bool)
        requires
            n <= data@.len(),
            old(self).spec_wf(),
        ensures
            final(self).spec_wf(),
            final(self).spec_p() == old(self).spec_p(),
            final(self).spec_c() == old(self).spec_c(),
            final(self).spec_buf_size() == old(self).spec_buf_size(),
            final(self).spec_transport() == old(self).spec_transport(),
            if old(self).spec_acc().len() + n <= old(self).spec_buf_size() {
                ok && final(self).spec_acc() == old(self).spec_acc() + data@.take(n as int)
            } else {
                !ok && final(self).spec_acc() == (old(self).spec_acc() + data@.take(n as int)).take(
                    old(self).spec_buf_size() as int,
                )
            },
    {
        let ghost acc0 = self.spec_acc();
        let mut i: usize = 0;
        proof {
            assert(self.spec_acc() =~= acc0 + data@.take(0));
        }
        while i < n
            invariant
                i <= n <= data@.len(),
                self.spec_wf(),
                self.spec_p() == old(self).spec_p(),
                self.spec_c() == old(self).spec_c(),
                self.spec_buf_size() == old(self).spec_buf_size(),
                self.spec_transport() == old(self).spec_transport(),
                acc0 == old(self).spec_acc(),
                self.spec_acc() == acc0 + data@.take(i as int),
                acc0.len() + i <= self.spec_buf_size(),
            decreases n - i,
        {
            if self.incoming_message.len() == self.buf_size {
                proof {
                    assert(final(self).spec_acc() =~= (acc0 + data@.take(n as int)).take(
                        old(self).spec_buf_size() as int,
                    ));
                }
                return false;
            }
            let b = data[i];
            self.incoming_message.push(b);
            i = i + 1;
            proof {
                assert(self.spec_acc() =~= acc0 + data@.take(i as int));
            }
        }
        true
    }

    /// One buffering phase: receive the bytes still missing up to `target`
    /// accumulated bytes and append them.
    fn load_phase(&mut self, target: usize) -> (st: LoadStatus)
        requires
            old(self).spec_wf(),
        ensures
            final(self).spec_wf(),
            final(self).spec_p() == old(self).spec_p(),
            final(self).spec_c() == old(self).spec_c(),
            final(self).spec_buf_size() == old(self).spec_buf_size(),
            (st, final(self).spec_acc(), final(self).spec_pending()) == spec_load(
                old(self).spec_acc(),
                old(self).spec_pending(),
                target as nat,
                old(self).spec_buf_size(),
            ),
    {
        let acc_len = self.incoming_message.len();
        if acc_len >= target {
            return LoadStatus::Done;
        }
        let missing = target - acc_len;
        let mut tmp: Vec<u8> = vec![0u8; missing];
        let ghost acc0 = self.spec_acc();
        let ghost pend0 = self.spec_pending();
        let r = self.transport.receive(&mut tmp);
        match r {
            Ok(TransmissionStatus::Complete) => {
                let ok = self.append_up_to(&tmp, missing);
                proof {
                    assert(tmp@.take(missing as int) =~= pend0.take(missing as int));
                }
                if ok {
                    LoadStatus::Done
                } else {
                    LoadStatus::Over
                }
            },
            Ok(TransmissionStatus::Partial(n)) => {
                let ok = self.append_up_to(&tmp, n);
                proof {
                    assert(tmp@.take(n as int) =~= pend0);
                    assert(pend0.take(n as int) =~= pend0);
                    assert(pend0.skip(n as int) =~= Seq::<u8>::empty());
                }
                if ok {
                    LoadStatus::Block
                } else {
                    LoadStatus::Over
                }
            },
            Err(CodecError::WouldBlock) => {
                proof {
                    assert(acc0 + pend0.take(0) =~= acc0);
                    assert(pend0.skip(0) =~= pend0);
                }
                LoadStatus::Block
            },
            Err(CodecError::Fatal) => {
                proof {
                    assert(false);
                }
                LoadStatus::Over
            },
        }
    }

    /// Discard bytes until the magic byte arrives, then accumulate it.
    fn find_magic(&mut self) -> (r: Result<(), CodecError>)
        requires
            old(self).spec_wf(),
            old(self).spec_acc().len() == 0,
        ensures
            final(self).spec_wf(),
            final(self).spec_p() == old(self).spec_p(),
            final(self).spec_c() == old(self).spec_c(),
            final(self).spec_buf_size() == old(self).spec_buf_size(),
            match r {
                Ok(()) => {
                    &&& scan_magic(old(self).spec_pending()).len() > 0
                    &&& final(self).spec_acc() == seq![MAGIC_BYTE]
                    &&& final(self).spec_pending() == scan_magic(old(self).spec_pending()).skip(1)
                },
                Err(CodecError::WouldBlock) => {
                    &&& scan_magic(old(self).spec_pending()).len() == 0
                    &&& final(self).spec_acc().len() == 0
                    &&& final(self).spec_pending() == Seq::<u8>::empty()
                },
                Err(CodecError::Fatal) => false,
            },
    {
        let mut one: Vec<u8> = vec![0u8; 1];
        loop
            invariant
                self.spec_wf(),
                self.spec_p() == old(self).spec_p(),
                self.spec_c() == old(self).spec_c(),
                self.spec_buf_size() == old(self).spec_buf_size(),
                self.spec_acc().len() == 0,
                one@.len() == 1,
                scan_magic(self.spec_pending()) == scan_magic(old(self).spec_pending()),
            decreases self.spec_pending().len(),
        {
            let ghost cur = self.spec_pending();
            let r = self.transport.receive(&mut one);
            match r {
                Ok(TransmissionStatus::Complete) => {
                    let b = one[0];
                    proof {
                        assert(cur.take(1)[0] == cur[0]);
                    }
                    if b == MAGIC_BYTE {
                        self.incoming_message.push(b);
                        proof {
                            assert(self.spec_acc() =~= seq![MAGIC_BYTE]);
                        }
                        return Ok(());
                    }
                },
                Ok(TransmissionStatus::Partial(_n)) => {
                    // a one-byte request cannot be partially served
                    proof {
                        assert(false);
                    }
                    return Err(CodecError::WouldBlock);
                },
                Err(e) => {
                    proof {
                        assert(self.spec_pending() =~= Seq::<u8>::empty());
                    }
                    return Err(e);
                },
            }
        }
    }

    /// Resume decoding one frame.  Bytes are pulled from the transport and
    /// accumulated phase by phase; on a checksum mismatch, or a payload
    /// longer than `capacity`, everything accumulated is discarded and the
    /// magic scan restarts within the same call (deliberately also dropping
    /// any magic byte buried in the discarded bytes, as this design always
    /// did).  On success `buffer` is overwritten with the payload.  The
    /// contract is exactly the state machine `spec_step`.
    pub fn read_msg(&mut self, buffer: &mut Vec<u8>, capacity: usize) -> (r: Result<
        (),
        CodecError,
    >)
        requires
            old(self).spec_wf(),
            1 + 2 * (old(self).spec_p() as int) + capacity + (old(self).spec_c() as int)
                <= usize::MAX,
        ensures
            final(self).spec_wf(),
            final(self).spec_p() == old(self).spec_p(),
            final(self).spec_c() == old(self).spec_c(),
            final(self).spec_buf_size() == old(self).spec_buf_size(),
            ({
                let st = spec_step(
                    old(self).spec_p(),
                    old(self).spec_c(),
                    capacity as nat,
                    old(self).spec_buf_size(),
                    old(self).spec_acc(),
                    old(self).spec_pending(),
                );
                &&& final(self).spec_acc() == st.1
                &&& final(self).spec_pending() == st.2
                &&& match r {
                    Ok(()) => st.0 == DecodeOutcome::Delivered(final(buffer)@),
                    Err(CodecError::WouldBlock) => st.0 is Blocked && final(buffer)@ == old(
                        buffer,
                    )@,
                    Err(CodecError::Fatal) => st.0 is Fatal && final(buffer)@ == old(buffer)@,
                }
            }),
    {
        self.transport.before_receive();
        let ghost gp = self.spec_p();
        let ghost gc = self.spec_c();
        let ghost gb = self.spec_buf_size();
        let ghost st_goal = spec_step(
            gp,
            gc,
            capacity as nat,
            gb,
            self.spec_acc(),
            self.spec_pending(),
        );
        loop
            invariant
                self.spec_wf(),
                self.spec_p() == gp,
                self.spec_c() == gc,
                self.spec_buf_size() == gb,
                gp == old(self).spec_p(),
                gc == old(self).spec_c(),
                gb == old(self).spec_buf_size(),
                1 + 2 * (gp as int) + capacity + (gc as int) <= usize::MAX,
                buffer@ == old(buffer)@,
                spec_step(gp, gc, capacity as nat, gb, self.spec_acc(), self.spec_pending())
                    == st_goal,
                st_goal == spec_step(
                    gp,
                    gc,
                    capacity as nat,
                    gb,
                    old(self).spec_acc(),
                    old(self).spec_pending(),
                ),
            decreases 2 * self.spec_pending().len() + self.spec_acc().len(),
        {
            let ghost acc_it = self.spec_acc();
            let ghost pend_it = self.spec_pending();
            // Phase: find the magic byte.
            if self.incoming_message.len() == 0 {
                match self.find_magic() {
                    Ok(()) => {},
                    Err(e) => {
                        proof {
                            assert(self.spec_acc() =~= Seq::<u8>::empty());
                        }
                        return Err(e);
                    },
                }
            }
            let p = self.len_prefix_bytes;
            let c = self.checksum_bytes;
            // Phase: the length field.
            let t1 = 1 + p;
            match self.load_phase(t1) {
                LoadStatus::Done => {},
                LoadStatus::Block => {
                    return Err(CodecError::WouldBlock);
                },
                LoadStatus::Over => {
                    return Err(CodecError::Fatal);
                },
            }
            let len_bytes = copy_range(&self.incoming_message, 1, t1);
            // Phase: the length checksum, verified exactly when this call
            // completes the phase.
            let crossed = self.incoming_message.len() < 1 + 2 * p;
            let t2 = 1 + 2 * p;
            match self.load_phase(t2) {
                LoadStatus::Done => {},
                LoadStatus::Block => {
                    return Err(CodecError::WouldBlock);
                },
                LoadStatus::Over => {
                    return Err(CodecError::Fatal);
                },
            }
            if crossed {
                let stored = copy_range(&self.incoming_message, 1 + p, t2);
                let computed = compute_checksum(len_bytes.as_slice(), p);
                if !eq_bytes(&stored, &computed) {
                    self.incoming_message.clear();
                    proof {
                        lemma_scan_magic_len(pend_it);
                        assert(self.spec_acc() =~= Seq::<u8>::empty());
                    }
                    continue ;
                }
            }
            // Phase: the payload; its decoded length must fit the caller.
            let len64 = decode_len(len_bytes.as_slice());
            if len64 > capacity as u64 {
                self.incoming_message.clear();
                proof {
                    lemma_scan_magic_len(pend_it);
                    assert(self.spec_acc() =~= Seq::<u8>::empty());
                }
                continue ;
            }
            let len = len64 as usize;
            let t3 = 1 + 2 * p + len;
            match self.load_phase(t3) {
                LoadStatus::Done => {},
                LoadStatus::Block => {
                    return Err(CodecError::WouldBlock);
                },
                LoadStatus::Over => {
                    return Err(CodecError::Fatal);
                },
            }
            let payload = copy_range(&self.incoming_message, t2, t3);
            // Phase: the payload checksum.
            let t4 = t3 + c;
            match self.load_phase(t4) {
                LoadStatus::Done => {},
                LoadStatus::Block => {
                    return Err(CodecError::WouldBlock);
                },
                LoadStatus::Over => {
                    return Err(CodecError::Fatal);
                },
            }
            let stored2 = copy_range(&self.incoming_message, t3, t4);
            let computed2 = compute_checksum(payload.as_slice(), c);
            if !eq_bytes(&stored2, &computed2) {
                self.incoming_message.clear();
                proof {
                    lemma_scan_magic_len(pend_it);
                    assert(self.spec_acc() =~= Seq::<u8>::empty());
                }
                continue ;
            }
            self.transport.after_receive();
            *buffer = payload;
            self.incoming_message.clear();
            proof {
                assert(self.spec_acc() =~= Seq::<u8>::empty());
            }
            return Ok(());
        }
    }
}

impl<T: RxTransport> DecoderT for Decoder<T> {
    open spec fn wf(&self) -> bool {
        self.spec_wf()
    }

    open spec fn read_req(&self, capacity: usize) -> bool {
        1 + 2 * (self.spec_p() as int) + capacity + (self.spec_c() as int) <= usize::MAX
    }

    fn read(&mut self, buffer: &mut Vec<u8>, capacity: usize) -> (r: Result<(), CodecError>) {
        self.read_msg(buffer, capacity)
    }
}

impl Decoder<StagingBuffer> {
    /// A decoder fed by hand: its transport is an internal bounded staging
    /// queue (bounded by `buf_size`, like the frame buffer) that `add` fills
    /// and decoding drains.
    pub fn new_plain(len_prefix_bytes: usize, checksum_bytes: usize, buf_size: usize) -> (r:
        Decoder<StagingBuffer>)
        requires
            1 <= len_prefix_bytes <= 8,
            checksum_bytes <= 32,
            1 <= buf_size,
        ensures
            r.spec_wf(),
            r.spec_p() == len_prefix_bytes,
            r.spec_c() == checksum_bytes,
            r.spec_buf_size() == buf_size,
            r.spec_acc() == Seq::<u8>::empty(),
            r.spec_pending() == Seq::<u8>::empty(),
            r.spec_transport().spec_limit() == buf_size,
    {
        Decoder::new(StagingBuffer::new(buf_size), len_prefix_bytes, checksum_bytes, buf_size)
    }

    /// Stage `input` for decoding; on overflow of the staging queue nothing
    /// is added and a capacity error is returned.
    pub fn add(&mut self, input: &[u8]) -> (r: Result<(), CapacityError>)
        ensures
            final(self).spec_p() == old(self).spec_p(),
            final(self).spec_c() == old(self).spec_c(),
            final(self).spec_buf_size() == old(self).spec_buf_size(),
            final(self).spec_acc() == old(self).spec_acc(),
            final(self).spec_transport().spec_limit() == old(self).spec_transport().spec_limit(),
            if old(self).spec_pending().len() + input@.len() <= old(
                self,
            ).spec_transport().spec_limit() {
                r == Ok::<(), CapacityError>(()) && final(self).spec_pending() == old(
                    self,
                ).spec_pending() + input@
            } else {
                r == Err::<(), CapacityError>(CapacityError) && final(self).spec_pending() == old(
                    self,
                ).spec_pending()
            },
    {
        self.transport.stage(input)
    }

    /// Atomically empty the staging queue and hand its contents back.
    pub fn recover_input(&mut self) -> (r: Vec<u8>)
        ensures
            final(self).spec_p() == old(self).spec_p(),
            final(self).spec_c() == old(self).spec_c(),
            final(self).spec_buf_size() == old(self).spec_buf_size(),
            final(self).spec_acc() == old(self).spec_acc(),
            final(self).spec_transport().spec_limit() == old(self).spec_transport().spec_limit(),
            r@ == old(self).spec_pending(),
            final(self).spec_pending() == Seq::<u8>::empty(),
    {
        self.transport.take_all()
    }

    /// Reset only the in-flight accumulated frame; staged input is kept.
    pub fn clear(&mut self)
        ensures
            final(self).spec_p() == old(self).spec_p(),
            final(self).spec_c() == old(self).spec_c(),
            final(self).spec_buf_size() == old(self).spec_buf_size(),
            final(self).spec_transport() == old(self).spec_transport(),
            final(self).spec_acc() == Seq::<u8>::empty(),
    {
        self.incoming_message.clear();
    }
}


} // verus!
