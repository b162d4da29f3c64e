//! The laws of the codec, proved over the decode state machine `spec_step`
//! and the frame builder `spec_frame`: a well-formed frame decodes back to
//! its payload, leading noise is skipped, delivery in pieces equals delivery
//! at once, and a corrupted checksum never lets the frame's payload through.

use vstd::prelude::*;
use crate::frame::{
    MAGIC_BYTE,
    spec_frame,
    spec_frame_size,
    spec_checksum,
    spec_be_bytes,
    spec_be_val,
    pow256,
    lemma_be_bytes_len,
    lemma_be_round_trip,
    lemma_checksum_len,
    lemma_frame_len,
};
use crate::machine::{
    LoadStatus,
    DecodeOutcome,
    spec_load,
    spec_step,
    scan_magic,
    lemma_scan_magic_len,
};

verus! {

proof fn lemma_scan_magic_drop_noise(noise: Seq<u8>, s: Seq<u8>)
    requires
        forall|i: int| 0 <= i < noise.len() ==> noise[i] != MAGIC_BYTE,
    ensures
        scan_magic(noise + s) == scan_magic(s),
    decreases noise.len(),
{
    if noise.len() == 0 {
        assert(noise + s =~= s);
    } else {
        assert((noise + s)[0] == noise[0]);
        assert((noise + s).skip(1) =~= noise.skip(1) + s);
        lemma_scan_magic_drop_noise(noise.skip(1), s);
    }
}

proof fn lemma_scan_magic_exhausted(x: Seq<u8>, y: Seq<u8>)
    requires
        scan_magic(x).len() == 0,
    ensures
        scan_magic(x + y) == scan_magic(y),
    decreases x.len(),
{
    if x.len() == 0 {
        assert(x + y =~= y);
    } else {
        assert((x + y)[0] == x[0]);
        assert((x + y).skip(1) =~= x.skip(1) + y);
        lemma_scan_magic_exhausted(x.skip(1), y);
    }
}

proof fn lemma_scan_magic_extend(x: Seq<u8>, y: Seq<u8>)
    requires
        scan_magic(x).len() > 0,
    ensures
        scan_magic(x + y) == scan_magic(x) + y,
    decreases x.len(),
{
    if x.len() == 0 {
    } else if x[0] == MAGIC_BYTE {
        assert((x + y)[0] == MAGIC_BYTE);
    } else {
        assert((x + y)[0] == x[0]);
        assert((x + y).skip(1) =~= x.skip(1) + y);
        lemma_scan_magic_extend(x.skip(1), y);
    }
}

/// Extending the input of a phase that already finished does not change what
/// it accumulated; the new bytes just wait behind.
proof fn lemma_load_extend(acc: Seq<u8>, x: Seq<u8>, y: Seq<u8>, target: nat, buf: nat)
    requires
        spec_load(acc, x, target, buf).0 is Done,
    ensures
        spec_load(acc, x + y, target, buf) == (
            LoadStatus::Done,
            spec_load(acc, x, target, buf).1,
            spec_load(acc, x, target, buf).2 + y,
        ),
{
    if acc.len() >= target {
    } else {
        let missing = (target - acc.len()) as nat;
        assert(x.take(missing as int) =~= (x + y).take(missing as int));
        assert((x + y).skip(missing as int) =~= x.skip(missing as int) + y);
    }
}

/// A phase that ran out of input consumes everything; feeding the rest later
/// continues exactly where it stopped.
proof fn lemma_load_compose(acc: Seq<u8>, x: Seq<u8>, y: Seq<u8>, target: nat, buf: nat)
    requires
        spec_load(acc, x, target, buf).0 is Block,
    ensures
        spec_load(acc, x + y, target, buf) == spec_load(
            spec_load(acc, x, target, buf).1,
            y,
            target,
            buf,
        ),
{
    let missing = (target - acc.len()) as nat;
    assert(x.take(x.len() as int) =~= x);
    assert(x.skip(x.len() as int) =~= Seq::<u8>::empty());
    let acc1 = acc + x;
    let missing1 = (target - acc1.len()) as nat;
    if y.len() <= missing1 {
        assert((x + y).take((x.len() + y.len()) as int) =~= x + y);
        assert((x + y).skip((x.len() + y.len()) as int) =~= Seq::<u8>::empty());
        assert(y.take(y.len() as int) =~= y);
        assert(y.skip(y.len() as int) =~= Seq::<u8>::empty());
        assert(acc + (x + y) =~= acc1 + y);
        if acc1.len() + y.len() > buf {
            assert((acc + (x + y)).take(buf as int) =~= (acc1 + y).take(buf as int));
        }
    } else {
        assert((x + y).take((x.len() + missing1) as int) =~= x + y.take(missing1 as int));
        assert((x + y).skip((x.len() + missing1) as int) =~= y.skip(missing1 as int));
        assert(acc + (x + y.take(missing1 as int)) =~= acc1 + y.take(missing1 as int));
        if acc1.len() + missing1 > buf {
            assert((acc + (x + y.take(missing1 as int))).take(buf as int) =~= (acc1 + y.take(
                missing1 as int,
            )).take(buf as int));
        }
    }
}

/// A delivered payload's whole frame was consumed: its framed size never
/// exceeds the bytes the machine had available.
#[verifier::rlimit(60)]
pub proof fn lemma_step_delivered_bound(
    p: nat,
    c: nat,
    cap: nat,
    buf: nat,
    acc: Seq<u8>,
    pending: Seq<u8>,
)
    ensures
        (spec_step(p, c, cap, buf, acc, pending).0 matches DecodeOutcome::Delivered(m) ==> 1 + 2
            * p + m.len() + c <= acc.len() + pending.len()),
    decreases 2 * pending.len() + acc.len(),
{
    let scanned = acc.len() == 0;
    let rest = if scanned {
        scan_magic(pending)
    } else {
        pending
    };
    if scanned && rest.len() == 0 {
    } else if scanned && buf == 0 {
    } else {
        lemma_scan_magic_len(pending);
        let acc1 = if scanned {
            seq![MAGIC_BYTE]
        } else {
            acc
        };
        let pend1 = if scanned {
            rest.skip(1)
        } else {
            rest
        };
        assert(acc1.len() + pend1.len() <= acc.len() + pending.len());
        let l1 = spec_load(acc1, pend1, 1 + p, buf);
        if !(l1.0 is Done) {
        } else {
            let len_bytes = l1.1.subrange(1, 1 + p as int);
            let l2 = spec_load(l1.1, l1.2, 1 + 2 * p, buf);
            if !(l2.0 is Done) {
            } else {
                let stored = l2.1.subrange(1 + p as int, 1 + 2 * p as int);
                let crossed = l1.1.len() < 1 + 2 * p;
                if crossed && stored != spec_checksum(len_bytes, p) {
                    lemma_step_delivered_bound(p, c, cap, buf, Seq::empty(), l2.2);
                } else {
                    let len = spec_be_val(len_bytes);
                    if len > cap {
                        lemma_step_delivered_bound(p, c, cap, buf, Seq::empty(), l2.2);
                    } else {
                        let l3 = spec_load(l2.1, l2.2, 1 + 2 * p + len, buf);
                        if !(l3.0 is Done) {
                        } else {
                            let l4 = spec_load(l3.1, l3.2, 1 + 2 * p + len + c, buf);
                            if !(l4.0 is Done) {
                            } else {
                                let payload = l3.1.subrange(
                                    1 + 2 * p as int,
                                    (1 + 2 * p + len) as int,
                                );
                                let stored2 = l4.1.subrange(
                                    (1 + 2 * p + len) as int,
                                    (1 + 2 * p + len + c) as int,
                                );
                                if stored2 != spec_checksum(payload, c) {
                                    lemma_step_delivered_bound(p, c, cap, buf, Seq::empty(), l4.2);
                                } else {
                                    assert(payload.len() == len);
                                    assert(l4.1.len() >= 1 + 2 * p + len + c);
                                    assert(l4.1.len() + l4.2.len() <= l3.1.len() + l3.2.len());
                                    assert(l3.1.len() + l3.2.len() <= l2.1.len() + l2.2.len());
                                    assert(l2.1.len() + l2.2.len() <= l1.1.len() + l1.2.len());
                                    assert(l1.1.len() + l1.2.len() <= acc1.len() + pend1.len());
                                }
                            }
                        }
                    }
                }
            }
        }
    }
}

/// Decoding a fresh stream that carries one frame-shaped byte string —
/// magic, a true length field, then arbitrary candidate checksums — either
/// rejects the length checksum and rescans what follows it, rejects the
/// payload checksum and ends blocked with nothing left, or delivers the
/// payload and ends blocked-free with nothing left.
pub proof fn lemma_step_on_frame_shape(
    p: nat,
    c: nat,
    cap: nat,
    buf: nat,
    msg: Seq<u8>,
    lenck: Seq<u8>,
    payck: Seq<u8>,
)
    requires
        1 <= p <= 8,
        c <= 32,
        lenck.len() == p,
        payck.len() == c,
        msg.len() < pow256(p),
        msg.len() <= cap,
        spec_frame_size(p, c, msg.len()) <= buf,
    ensures
        ({
            let pend = seq![MAGIC_BYTE] + spec_be_bytes(msg.len(), p) + lenck + msg + payck;
            spec_step(p, c, cap, buf, Seq::empty(), pend) == (if lenck != spec_checksum(
                spec_be_bytes(msg.len(), p),
                p,
            ) {
                spec_step(p, c, cap, buf, Seq::empty(), msg + payck)
            } else if payck != spec_checksum(msg, c) {
                (DecodeOutcome::Blocked, Seq::<u8>::empty(), Seq::<u8>::empty())
            } else {
                (DecodeOutcome::Delivered(msg), Seq::<u8>::empty(), Seq::<u8>::empty())
            })
        }),
{
    let a = seq![MAGIC_BYTE];
    let b = spec_be_bytes(msg.len(), p);
    lemma_be_bytes_len(msg.len(), p);
    lemma_be_round_trip(msg.len(), p);
    let pend = a + b + lenck + msg + payck;
    let len = msg.len();
    assert(pend[0] == MAGIC_BYTE);
    assert(scan_magic(pend) == pend);
    assert(pend.skip(1) =~= b + lenck + msg + payck);
    let acc1 = seq![MAGIC_BYTE];
    let pend1 = b + lenck + msg + payck;
    // the length field
    let l1 = spec_load(acc1, pend1, 1 + p, buf);
    assert(pend1.take(p as int) =~= b);
    assert(acc1 + b =~= a + b);
    assert(pend1.skip(p as int) =~= lenck + msg + payck);
    assert(l1 == (LoadStatus::Done, a + b, lenck + msg + payck));
    assert((a + b).subrange(1, 1 + p as int) =~= b);
    // the length checksum
    let l2 = spec_load(a + b, lenck + msg + payck, 1 + 2 * p, buf);
    assert((lenck + msg + payck).take(p as int) =~= lenck);
    assert((a + b) + lenck =~= a + b + lenck);
    assert((lenck + msg + payck).skip(p as int) =~= msg + payck);
    assert(l2 == (LoadStatus::Done, a + b + lenck, msg + payck));
    assert((a + b + lenck).subrange(1 + p as int, 1 + 2 * p as int) =~= lenck);
    if lenck != spec_checksum(b, p) {
        assert(spec_step(p, c, cap, buf, Seq::empty(), pend) == spec_step(
            p,
            c,
            cap,
            buf,
            Seq::empty(),
            msg + payck,
        ));
    } else {
        // the payload
        let l3 = spec_load(a + b + lenck, msg + payck, 1 + 2 * p + len, buf);
        assert((msg + payck).take(len as int) =~= msg);
        assert((a + b + lenck) + msg =~= a + b + lenck + msg);
        assert((msg + payck).skip(len as int) =~= payck);
        assert(l3 == (LoadStatus::Done, a + b + lenck + msg, payck));
        assert((a + b + lenck + msg).subrange(1 + 2 * p as int, (1 + 2 * p + len) as int)
            =~= msg);
        // the payload checksum
        let l4 = spec_load(a + b + lenck + msg, payck, 1 + 2 * p + len + c, buf);
        assert(payck.take(c as int) =~= payck);
        assert((a + b + lenck + msg) + payck =~= pend);
        assert(payck.skip(c as int) =~= Seq::<u8>::empty());
        assert(l4 == (LoadStatus::Done, pend, Seq::<u8>::empty()));
        assert(pend.subrange((1 + 2 * p + len) as int, (1 + 2 * p + len + c) as int) =~= payck);
        if payck != spec_checksum(msg, c) {
            assert(scan_magic(Seq::<u8>::empty()).len() == 0);
            assert(spec_step(p, c, cap, buf, Seq::empty(), Seq::<u8>::empty()) == (
                DecodeOutcome::Blocked,
                Seq::<u8>::empty(),
                Seq::<u8>::empty(),
            ));
            assert(spec_step(p, c, cap, buf, Seq::empty(), pend) == (
                DecodeOutcome::Blocked,
                Seq::<u8>::empty(),
                Seq::<u8>::empty(),
            ));
        } else {
            assert(spec_step(p, c, cap, buf, Seq::empty(), pend) == (
                DecodeOutcome::Delivered(msg),
                Seq::<u8>::empty(),
                Seq::<u8>::empty(),
            ));
        }
    }
}

/// Round trip: for every configuration and payload that fit — the payload
/// shorter than the length field allows and no larger than the caller's
/// capacity, the whole frame within the decoder's buffer — decoding the
/// encoded frame delivers exactly that payload and leaves nothing behind.
pub proof fn lemma_round_trip(p: nat, c: nat, cap: nat, buf: nat, msg: Seq<u8>)
    requires
        1 <= p <= 8,
        c <= 32,
        msg.len() < pow256(p),
        msg.len() <= cap,
        spec_frame_size(p, c, msg.len()) <= buf,
    ensures
        spec_step(p, c, cap, buf, Seq::empty(), spec_frame(p, c, msg)) == (
            DecodeOutcome::Delivered(msg),
            Seq::<u8>::empty(),
            Seq::<u8>::empty(),
        ),
{
    lemma_step_on_frame_shape(
        p,
        c,
        cap,
        buf,
        msg,
        spec_checksum(spec_be_bytes(msg.len(), p), p),
        spec_checksum(msg, c),
    );
}

/// A scan that found the magic byte leaves the machine exactly as if the
/// magic byte had already been accumulated.
proof fn lemma_step_scan(p: nat, c: nat, cap: nat, buf: nat, x: Seq<u8>)
    requires
        scan_magic(x).len() > 0,
        buf > 0,
    ensures
        spec_step(p, c, cap, buf, Seq::empty(), x) == spec_step(
            p,
            c,
            cap,
            buf,
            seq![MAGIC_BYTE],
            scan_magic(x).skip(1),
        ),
{
}

#[verifier::rlimit(60)]
proof fn lemma_resume_block1(p: nat, c: nat, cap: nat, buf: nat, acc1: Seq<u8>, pend1: Seq<u8>, y: Seq<u8>)
    requires
        acc1.len() > 0,
        spec_load(acc1, pend1, 1 + p, buf).0 is Block,
    ensures
        ({
            let l1 = spec_load(acc1, pend1, 1 + p, buf);
            &&& spec_step(p, c, cap, buf, acc1, pend1) == (DecodeOutcome::Blocked, l1.1, l1.2)
            &&& spec_step(p, c, cap, buf, acc1, pend1 + y) == spec_step(p, c, cap, buf, l1.1, y)
        }),
{
    let l1 = spec_load(acc1, pend1, 1 + p, buf);
    lemma_load_compose(acc1, pend1, y, 1 + p, buf);
    assert(l1.1.len() > 0);
}

#[verifier::rlimit(60)]
proof fn lemma_resume_block2(p: nat, c: nat, cap: nat, buf: nat, acc1: Seq<u8>, pend1: Seq<u8>, y: Seq<u8>)
    requires
        acc1.len() > 0,
        spec_load(acc1, pend1, 1 + p, buf).0 is Done,
        ({
            let l1 = spec_load(acc1, pend1, 1 + p, buf);
            spec_load(l1.1, l1.2, 1 + 2 * p, buf).0 is Block
        }),
    ensures
        ({
            let l1 = spec_load(acc1, pend1, 1 + p, buf);
            let l2 = spec_load(l1.1, l1.2, 1 + 2 * p, buf);
            &&& spec_step(p, c, cap, buf, acc1, pend1) == (DecodeOutcome::Blocked, l2.1, l2.2)
            &&& spec_step(p, c, cap, buf, acc1, pend1 + y) == spec_step(p, c, cap, buf, l2.1, y)
        }),
{
    let l1 = spec_load(acc1, pend1, 1 + p, buf);
    let l2 = spec_load(l1.1, l1.2, 1 + 2 * p, buf);
    lemma_load_extend(acc1, pend1, y, 1 + p, buf);
    lemma_load_compose(l1.1, l1.2, y, 1 + 2 * p, buf);
    assert(l2.1.subrange(1, 1 + p as int) =~= l1.1.subrange(1, 1 + p as int));
}

#[verifier::rlimit(60)]
proof fn lemma_resume_block3(p: nat, c: nat, cap: nat, buf: nat, acc1: Seq<u8>, pend1: Seq<u8>, y: Seq<u8>)
    requires
        acc1.len() > 0,
        spec_load(acc1, pend1, 1 + p, buf).0 is Done,
        ({
            let l1 = spec_load(acc1, pend1, 1 + p, buf);
            let l2 = spec_load(l1.1, l1.2, 1 + 2 * p, buf);
            let len_bytes = l1.1.subrange(1, 1 + p as int);
            let stored = l2.1.subrange(1 + p as int, 1 + 2 * p as int);
            &&& l2.0 is Done
            &&& !(l1.1.len() < 1 + 2 * p && stored != spec_checksum(len_bytes, p))
            &&& spec_be_val(len_bytes) <= cap
            &&& spec_load(l2.1, l2.2, 1 + 2 * p + spec_be_val(len_bytes), buf).0 is Block
        }),
    ensures
        ({
            let l1 = spec_load(acc1, pend1, 1 + p, buf);
            let l2 = spec_load(l1.1, l1.2, 1 + 2 * p, buf);
            let len = spec_be_val(l1.1.subrange(1, 1 + p as int));
            let l3 = spec_load(l2.1, l2.2, 1 + 2 * p + len, buf);
            &&& spec_step(p, c, cap, buf, acc1, pend1) == (DecodeOutcome::Blocked, l3.1, l3.2)
            &&& spec_step(p, c, cap, buf, acc1, pend1 + y) == spec_step(p, c, cap, buf, l3.1, y)
        }),
{
    let l1 = spec_load(acc1, pend1, 1 + p, buf);
    let l2 = spec_load(l1.1, l1.2, 1 + 2 * p, buf);
    let len = spec_be_val(l1.1.subrange(1, 1 + p as int));
    let l3 = spec_load(l2.1, l2.2, 1 + 2 * p + len, buf);
    lemma_load_extend(acc1, pend1, y, 1 + p, buf);
    lemma_load_extend(l1.1, l1.2, y, 1 + 2 * p, buf);
    lemma_load_compose(l2.1, l2.2, y, 1 + 2 * p + len, buf);
    assert(l3.1.subrange(1, 1 + p as int) =~= l1.1.subrange(1, 1 + p as int));
    assert(l3.1.subrange(1 + p as int, 1 + 2 * p as int) =~= l2.1.subrange(
        1 + p as int,
        1 + 2 * p as int,
    ));
}

#[verifier::rlimit(60)]
proof fn lemma_resume_block4(p: nat, c: nat, cap: nat, buf: nat, acc1: Seq<u8>, pend1: Seq<u8>, y: Seq<u8>)
    requires
        acc1.len() > 0,
        spec_load(acc1, pend1, 1 + p, buf).0 is Done,
        ({
            let l1 = spec_load(acc1, pend1, 1 + p, buf);
            let l2 = spec_load(l1.1, l1.2, 1 + 2 * p, buf);
            let len_bytes = l1.1.subrange(1, 1 + p as int);
            let stored = l2.1.subrange(1 + p as int, 1 + 2 * p as int);
            let len = spec_be_val(len_bytes);
            &&& l2.0 is Done
            &&& !(l1.1.len() < 1 + 2 * p && stored != spec_checksum(len_bytes, p))
            &&& len <= cap
            &&& spec_load(l2.1, l2.2, 1 + 2 * p + len, buf).0 is Done
            &&& ({
                let l3 = spec_load(l2.1, l2.2, 1 + 2 * p + len, buf);
                spec_load(l3.1, l3.2, 1 + 2 * p + len + c, buf).0 is Block
            })
        }),
    ensures
        ({
            let l1 = spec_load(acc1, pend1, 1 + p, buf);
            let l2 = spec_load(l1.1, l1.2, 1 + 2 * p, buf);
            let len = spec_be_val(l1.1.subrange(1, 1 + p as int));
            let l3 = spec_load(l2.1, l2.2, 1 + 2 * p + len, buf);
            let l4 = spec_load(l3.1, l3.2, 1 + 2 * p + len + c, buf);
            &&& spec_step(p, c, cap, buf, acc1, pend1) == (DecodeOutcome::Blocked, l4.1, l4.2)
            &&& spec_step(p, c, cap, buf, acc1, pend1 + y) == spec_step(p, c, cap, buf, l4.1, y)
        }),
{
    let l1 = spec_load(acc1, pend1, 1 + p, buf);
    let l2 = spec_load(l1.1, l1.2, 1 + 2 * p, buf);
    let len = spec_be_val(l1.1.subrange(1, 1 + p as int));
    let l3 = spec_load(l2.1, l2.2, 1 + 2 * p + len, buf);
    let l4 = spec_load(l3.1, l3.2, 1 + 2 * p + len + c, buf);
    lemma_load_extend(acc1, pend1, y, 1 + p, buf);
    lemma_load_extend(l1.1, l1.2, y, 1 + 2 * p, buf);
    lemma_load_extend(l2.1, l2.2, y, 1 + 2 * p + len, buf);
    lemma_load_compose(l3.1, l3.2, y, 1 + 2 * p + len + c, buf);
    assert(l4.1.subrange(1, 1 + p as int) =~= l1.1.subrange(1, 1 + p as int));
    assert(l4.1.subrange(1 + p as int, 1 + 2 * p as int) =~= l2.1.subrange(
        1 + p as int,
        1 + 2 * p as int,
    ));
    assert(l4.1.subrange(1 + 2 * p as int, (1 + 2 * p + len) as int) =~= l3.1.subrange(
        1 + 2 * p as int,
        (1 + 2 * p + len) as int,
    ));
}

#[verifier::rlimit(60)]
proof fn lemma_resume_resync12(p: nat, c: nat, cap: nat, buf: nat, acc1: Seq<u8>, pend1: Seq<u8>, y: Seq<u8>)
    requires
        acc1.len() > 0,
        spec_load(acc1, pend1, 1 + p, buf).0 is Done,
        ({
            let l1 = spec_load(acc1, pend1, 1 + p, buf);
            let l2 = spec_load(l1.1, l1.2, 1 + 2 * p, buf);
            let len_bytes = l1.1.subrange(1, 1 + p as int);
            let stored = l2.1.subrange(1 + p as int, 1 + 2 * p as int);
            &&& l2.0 is Done
            &&& ((l1.1.len() < 1 + 2 * p && stored != spec_checksum(len_bytes, p)) || spec_be_val(
                len_bytes,
            ) > cap)
        }),
    ensures
        ({
            let l1 = spec_load(acc1, pend1, 1 + p, buf);
            let l2 = spec_load(l1.1, l1.2, 1 + 2 * p, buf);
            &&& spec_step(p, c, cap, buf, acc1, pend1) == spec_step(
                p,
                c,
                cap,
                buf,
                Seq::empty(),
                l2.2,
            )
            &&& spec_step(p, c, cap, buf, acc1, pend1 + y) == spec_step(
                p,
                c,
                cap,
                buf,
                Seq::empty(),
                l2.2 + y,
            )
        }),
{
    lemma_load_extend(acc1, pend1, y, 1 + p, buf);
    let l1 = spec_load(acc1, pend1, 1 + p, buf);
    lemma_load_extend(l1.1, l1.2, y, 1 + 2 * p, buf);
}

#[verifier::rlimit(60)]
proof fn lemma_resume_resync3(p: nat, c: nat, cap: nat, buf: nat, acc1: Seq<u8>, pend1: Seq<u8>, y: Seq<u8>)
    requires
        acc1.len() > 0,
        spec_load(acc1, pend1, 1 + p, buf).0 is Done,
        ({
            let l1 = spec_load(acc1, pend1, 1 + p, buf);
            let l2 = spec_load(l1.1, l1.2, 1 + 2 * p, buf);
            let len_bytes = l1.1.subrange(1, 1 + p as int);
            let stored = l2.1.subrange(1 + p as int, 1 + 2 * p as int);
            let len = spec_be_val(len_bytes);
            &&& l2.0 is Done
            &&& !(l1.1.len() < 1 + 2 * p && stored != spec_checksum(len_bytes, p))
            &&& len <= cap
            &&& spec_load(l2.1, l2.2, 1 + 2 * p + len, buf).0 is Done
            &&& ({
                let l3 = spec_load(l2.1, l2.2, 1 + 2 * p + len, buf);
                let l4 = spec_load(l3.1, l3.2, 1 + 2 * p + len + c, buf);
                let payload = l3.1.subrange(1 + 2 * p as int, (1 + 2 * p + len) as int);
                let stored2 = l4.1.subrange((1 + 2 * p + len) as int, (1 + 2 * p + len + c) as int);
                &&& l4.0 is Done
                &&& stored2 != spec_checksum(payload, c)
            })
        }),
    ensures
        ({
            let l1 = spec_load(acc1, pend1, 1 + p, buf);
            let l2 = spec_load(l1.1, l1.2, 1 + 2 * p, buf);
            let len = spec_be_val(l1.1.subrange(1, 1 + p as int));
            let l3 = spec_load(l2.1, l2.2, 1 + 2 * p + len, buf);
            let l4 = spec_load(l3.1, l3.2, 1 + 2 * p + len + c, buf);
            &&& spec_step(p, c, cap, buf, acc1, pend1) == spec_step(
                p,
                c,
                cap,
                buf,
                Seq::empty(),
                l4.2,
            )
            &&& spec_step(p, c, cap, buf, acc1, pend1 + y) == spec_step(
                p,
                c,
                cap,
                buf,
                Seq::empty(),
                l4.2 + y,
            )
        }),
{
    let l1 = spec_load(acc1, pend1, 1 + p, buf);
    let l2 = spec_load(l1.1, l1.2, 1 + 2 * p, buf);
    let len = spec_be_val(l1.1.subrange(1, 1 + p as int));
    let l3 = spec_load(l2.1, l2.2, 1 + 2 * p + len, buf);
    lemma_load_extend(acc1, pend1, y, 1 + p, buf);
    lemma_load_extend(l1.1, l1.2, y, 1 + 2 * p, buf);
    lemma_load_extend(l2.1, l2.2, y, 1 + 2 * p + len, buf);
    lemma_load_extend(l3.1, l3.2, y, 1 + 2 * p + len + c, buf);
}

#[verifier::rlimit(60)]
proof fn lemma_step_scan_exhausted(p: nat, c: nat, cap: nat, buf: nat, x: Seq<u8>, y: Seq<u8>)
    requires
        scan_magic(x).len() == 0,
    ensures
        spec_step(p, c, cap, buf, Seq::empty(), x) == (
            DecodeOutcome::Blocked,
            Seq::<u8>::empty(),
            Seq::<u8>::empty(),
        ),
        spec_step(p, c, cap, buf, Seq::empty(), x + y) == spec_step(
            p,
            c,
            cap,
            buf,
            Seq::<u8>::empty(),
            y,
        ),
{
    lemma_scan_magic_exhausted(x, y);
}

#[verifier::rlimit(60)]
proof fn lemma_step_fatal_cases(p: nat, c: nat, cap: nat, buf: nat, acc1: Seq<u8>, pend1: Seq<u8>)
    requires
        acc1.len() > 0,
    ensures
        ({
            let st = spec_step(p, c, cap, buf, acc1, pend1);
            let l1 = spec_load(acc1, pend1, 1 + p, buf);
            let l2 = spec_load(l1.1, l1.2, 1 + 2 * p, buf);
            let len_bytes = l1.1.subrange(1, 1 + p as int);
            let stored = l2.1.subrange(1 + p as int, 1 + 2 * p as int);
            let crossed = l1.1.len() < 1 + 2 * p;
            let len = spec_be_val(len_bytes);
            let l3 = spec_load(l2.1, l2.2, 1 + 2 * p + len, buf);
            let l4 = spec_load(l3.1, l3.2, 1 + 2 * p + len + c, buf);
            let payload = l3.1.subrange(1 + 2 * p as int, (1 + 2 * p + len) as int);
            let stored2 = l4.1.subrange((1 + 2 * p + len) as int, (1 + 2 * p + len + c) as int);
            &&& (l1.0 is Over ==> st.0 is Fatal)
            &&& (l1.0 is Done && l2.0 is Over ==> st.0 is Fatal)
            &&& (l1.0 is Done && l2.0 is Done && !(crossed && stored != spec_checksum(
                len_bytes,
                p,
            )) && len <= cap && l3.0 is Over ==> st.0 is Fatal)
            &&& (l1.0 is Done && l2.0 is Done && !(crossed && stored != spec_checksum(
                len_bytes,
                p,
            )) && len <= cap && l3.0 is Done && l4.0 is Over ==> st.0 is Fatal)
            &&& (l1.0 is Done && l2.0 is Done && !(crossed && stored != spec_checksum(
                len_bytes,
                p,
            )) && len <= cap && l3.0 is Done && l4.0 is Done && stored2 == spec_checksum(
                payload,
                c,
            ) ==> st.0 is Delivered)
        }),
{
}

/// Chunked-delivery equivalence: when a decode call ran out of input, it
/// consumed everything; feeding the remainder of the stream to the state it
/// left behind decides exactly as feeding the whole stream at once would
/// have.  Delivering a frame in any number of pieces therefore yields the
/// same payload as delivering it in one piece.
#[verifier::rlimit(100)]
#[verifier::spinoff_prover]
pub proof fn lemma_chunked_delivery(
    p: nat,
    c: nat,
    cap: nat,
    buf: nat,
    acc: Seq<u8>,
    x: Seq<u8>,
    y: Seq<u8>,
)
    requires
        spec_step(p, c, cap, buf, acc, x).0 is Blocked,
    ensures
        spec_step(p, c, cap, buf, acc, x + y) == spec_step(
            p,
            c,
            cap,
            buf,
            spec_step(p, c, cap, buf, acc, x).1,
            y,
        ),
    decreases 2 * x.len() + acc.len(), 1nat,
{
    if acc.len() == 0 && scan_magic(x).len() == 0 {
        lemma_step_scan_exhausted(p, c, cap, buf, x, y);
    } else if acc.len() == 0 && buf == 0 {
        assert(spec_step(p, c, cap, buf, acc, x).0 is Fatal);
        assert(false);
    } else if acc.len() == 0 {
        lemma_scan_magic_len(x);
        lemma_scan_magic_extend(x, y);
        assert((scan_magic(x) + y).skip(1) =~= scan_magic(x).skip(1) + y);
        lemma_step_scan(p, c, cap, buf, x);
        lemma_step_scan(p, c, cap, buf, x + y);
        lemma_chunked_core(p, c, cap, buf, seq![MAGIC_BYTE], scan_magic(x).skip(1), y);
    } else {
        lemma_chunked_core(p, c, cap, buf, acc, x, y);
    }
}

/// The working half of the chunked-delivery proof: composition once the
/// magic byte is already accumulated.
#[verifier::rlimit(100)]
#[verifier::spinoff_prover]
proof fn lemma_chunked_core(
    p: nat,
    c: nat,
    cap: nat,
    buf: nat,
    acc1: Seq<u8>,
    pend1: Seq<u8>,
    y: Seq<u8>,
)
    requires
        acc1.len() > 0,
        spec_step(p, c, cap, buf, acc1, pend1).0 is Blocked,
    ensures
        spec_step(p, c, cap, buf, acc1, pend1 + y) == spec_step(
            p,
            c,
            cap,
            buf,
            spec_step(p, c, cap, buf, acc1, pend1).1,
            y,
        ),
    decreases 2 * pend1.len() + acc1.len(), 0nat,
{
    let l1 = spec_load(acc1, pend1, 1 + p, buf);
    let len_bytes = l1.1.subrange(1, 1 + p as int);
    let crossed = l1.1.len() < 1 + 2 * p;
    let l2 = spec_load(l1.1, l1.2, 1 + 2 * p, buf);
    let stored = l2.1.subrange(1 + p as int, 1 + 2 * p as int);
    let len = spec_be_val(len_bytes);
    assert(l1.2.len() <= pend1.len());
    assert(l2.2.len() <= l1.2.len());
    if l1.0 is Block {
        lemma_resume_block1(p, c, cap, buf, acc1, pend1, y);
    } else if l1.0 is Over {
        lemma_step_fatal_cases(p, c, cap, buf, acc1, pend1);
        assert(false);
    } else if l2.0 is Block {
        lemma_resume_block2(p, c, cap, buf, acc1, pend1, y);
    } else if l2.0 is Over {
        lemma_step_fatal_cases(p, c, cap, buf, acc1, pend1);
        assert(false);
    } else if crossed && stored != spec_checksum(len_bytes, p) {
        lemma_resume_resync12(p, c, cap, buf, acc1, pend1, y);
        assert(l2.2.len() + 1 <= pend1.len());
        lemma_chunked_delivery(p, c, cap, buf, Seq::empty(), l2.2, y);
    } else if len > cap {
        lemma_resume_resync12(p, c, cap, buf, acc1, pend1, y);
        lemma_chunked_delivery(p, c, cap, buf, Seq::empty(), l2.2, y);
    } else {
        let l3 = spec_load(l2.1, l2.2, 1 + 2 * p + len, buf);
        let payload = l3.1.subrange(1 + 2 * p as int, (1 + 2 * p + len) as int);
        let l4 = spec_load(l3.1, l3.2, 1 + 2 * p + len + c, buf);
        let stored2 = l4.1.subrange((1 + 2 * p + len) as int, (1 + 2 * p + len + c) as int);
        assert(l3.2.len() <= l2.2.len());
        assert(l4.2.len() <= l3.2.len());
        if l3.0 is Block {
            lemma_resume_block3(p, c, cap, buf, acc1, pend1, y);
        } else if l3.0 is Over {
            lemma_step_fatal_cases(p, c, cap, buf, acc1, pend1);
            assert(false);
        } else if l4.0 is Block {
            lemma_resume_block4(p, c, cap, buf, acc1, pend1, y);
        } else if l4.0 is Over {
            lemma_step_fatal_cases(p, c, cap, buf, acc1, pend1);
            assert(false);
        } else if stored2 != spec_checksum(payload, c) {
            lemma_resume_resync3(p, c, cap, buf, acc1, pend1, y);
            lemma_chunked_delivery(p, c, cap, buf, Seq::empty(), l4.2, y);
        } else {
            lemma_step_fatal_cases(p, c, cap, buf, acc1, pend1);
            assert(false);
        }
    }
}

/// Checksum tamper detection: change any byte — so in particular flip any
/// single bit — within the length-checksum or payload-checksum region of a
/// frame, and decoding the corrupted frame never delivers that frame's
/// payload.
pub proof fn lemma_tamper_detected(
    p: nat,
    c: nat,
    cap: nat,
    buf: nat,
    msg: Seq<u8>,
    i: int,
    b: u8,
)
    requires
        1 <= p <= 8,
        c <= 32,
        msg.len() < pow256(p),
        msg.len() <= cap,
        spec_frame_size(p, c, msg.len()) <= buf,
        (1 + p <= i < 1 + 2 * p) || (1 + 2 * p + msg.len() <= i < spec_frame_size(
            p,
            c,
            msg.len(),
        )),
        b != spec_frame(p, c, msg)[i],
    ensures
        !(spec_step(p, c, cap, buf, Seq::empty(), spec_frame(p, c, msg).update(i, b)).0
            == DecodeOutcome::Delivered(msg)),
{
    let a = seq![MAGIC_BYTE];
    let bb = spec_be_bytes(msg.len(), p);
    let lenck = spec_checksum(bb, p);
    let payck = spec_checksum(msg, c);
    lemma_be_bytes_len(msg.len(), p);
    lemma_checksum_len(bb, p);
    lemma_checksum_len(msg, c);
    let frame = spec_frame(p, c, msg);
    lemma_frame_len(p, c, msg);
    let tam = frame.update(i, b);
    let len = msg.len();
    if i < 1 + 2 * p {
        let j = i - 1 - p;
        let lenck2 = lenck.update(j, b);
        assert(frame[i] == lenck[j]);
        assert(tam =~= a + bb + lenck2 + msg + payck);
        assert(lenck2[j] == b);
        assert(lenck2 != spec_checksum(bb, p));
        lemma_step_on_frame_shape(p, c, cap, buf, msg, lenck2, payck);
        let st = spec_step(p, c, cap, buf, Seq::empty(), msg + payck);
        lemma_step_delivered_bound(p, c, cap, buf, Seq::empty(), msg + payck);
        match st.0 {
            DecodeOutcome::Delivered(m) => {
                assert(1 + 2 * p + m.len() + c <= msg.len() + c);
                assert(m.len() < msg.len());
                assert(m != msg);
            },
            _ => {},
        }
    } else {
        let j = i - 1 - 2 * p - len;
        let payck2 = payck.update(j, b);
        assert(frame[i] == payck[j]);
        assert(tam =~= a + bb + lenck + msg + payck2);
        assert(payck2[j] == b);
        assert(payck2 != spec_checksum(msg, c));
        lemma_step_on_frame_shape(p, c, cap, buf, msg, lenck, payck2);
    }
}

/// Resync on leading noise: bytes without the magic byte in front of the
/// input are discarded without changing what a decode call does.
pub proof fn lemma_resync_on_leading_noise(
    p: nat,
    c: nat,
    cap: nat,
    buf: nat,
    noise: Seq<u8>,
    pending: Seq<u8>,
)
    requires
        forall|i: int| 0 <= i < noise.len() ==> noise[i] != MAGIC_BYTE,
    ensures
        spec_step(p, c, cap, buf, Seq::empty(), noise + pending) == spec_step(
            p,
            c,
            cap,
            buf,
            Seq::empty(),
            pending,
        ),
{
    lemma_scan_magic_drop_noise(noise, pending);
}

} // verus!
