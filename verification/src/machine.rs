//! The mathematical model of one decode call: a function from the decoder's
//! accumulated bytes and the transport's pending bytes to the outcome of the
//! call and the state it leaves behind.  The phases (magic, length, length
//! checksum, payload, payload checksum) are recomputed from the accumulated
//! length, so the machine is resumable by construction; on a validation
//! failure the whole accumulated buffer is discarded and the machine restarts
//! at the magic scan within the same call.

use vstd::prelude::*;
use crate::frame::{MAGIC_BYTE, spec_checksum, spec_be_val};

verus! {

/// What one buffering phase did: finished its phase, ran out of input, or
/// overflowed the accumulation buffer.
pub enum LoadStatus {
    Done,
    Block,
    Over,
}

/// The outcome of one decode call: a payload was delivered, the call would
/// block awaiting input, or the accumulation buffer overflowed.
pub enum DecodeOutcome {
    Delivered(Seq<u8>),
    Blocked,
    Fatal,
}

/// Drop leading bytes until the magic byte is at the front (or nothing is
/// left).
pub open spec fn scan_magic(pending: Seq<u8>) -> Seq<u8>
    decreases pending.len(),
{
    if pending.len() == 0 {
        pending
    } else if pending[0] == MAGIC_BYTE {
        pending
    } else {
        scan_magic(pending.skip(1))
    }
}

pub proof fn lemma_scan_magic_len(pending: Seq<u8>)
    ensures
        scan_magic(pending).len() <= pending.len(),
    decreases pending.len(),
{
    if pending.len() > 0 && pending[0] != MAGIC_BYTE {
        lemma_scan_magic_len(pending.skip(1));
    }
}

/// One buffering phase: move bytes from `pending` into `acc` until `acc`
/// holds `target` bytes, the input runs dry, or the bound `buf` is hit.
pub open spec fn spec_load(acc: Seq<u8>, pending: Seq<u8>, target: nat, buf: nat) -> (
    LoadStatus,
    Seq<u8>,
    Seq<u8>,
) {
    if acc.len() >= target {
        (LoadStatus::Done, acc, pending)
    } else {
        let missing = (target - acc.len()) as nat;
        let consumed: nat = if pending.len() <= missing {
            pending.len()
        } else {
            missing
        };
        let taken = pending.take(consumed as int);
        let rest = pending.skip(consumed as int);
        if acc.len() + consumed > buf {
            (LoadStatus::Over, (acc + taken).take(buf as int), rest)
        } else if consumed < missing {
            (LoadStatus::Block, acc + taken, rest)
        } else {
            (LoadStatus::Done, acc + taken, rest)
        }
    }
}

/// The call outcome that a non-`Done` phase status stands for.
pub open spec fn load_outcome(st: LoadStatus) -> DecodeOutcome {
    match st {
        LoadStatus::Done => DecodeOutcome::Blocked,
        LoadStatus::Block => DecodeOutcome::Blocked,
        LoadStatus::Over => DecodeOutcome::Fatal,
    }
}

/// One whole decode call on a decoder with length width `p`, payload checksum
/// width `c`, caller capacity `cap` and accumulation bound `buf`, starting
/// from accumulated bytes `acc0` and pending input `pending0`.  Returns the
/// outcome together with the accumulated and pending bytes left behind.
pub open spec fn spec_step(
    p: nat,
    c: nat,
    cap: nat,
    buf: nat,
    acc0: Seq<u8>,
    pending0: Seq<u8>,
) -> (DecodeOutcome, Seq<u8>, Seq<u8>)
    decreases 2 * pending0.len() + acc0.len(),
{
    let scanned = acc0.len() == 0;
    let rest = if scanned {
        scan_magic(pending0)
    } else {
        pending0
    };
    if scanned && rest.len() == 0 {
        (DecodeOutcome::Blocked, Seq::empty(), Seq::empty())
    } else if scanned && buf == 0 {
        (DecodeOutcome::Fatal, Seq::empty(), rest.skip(1))
    } else {
        proof {
            lemma_scan_magic_len(pending0);
        }
        let acc1 = if scanned {
            seq![MAGIC_BYTE]
        } else {
            acc0
        };
        let pend1 = if scanned {
            rest.skip(1)
        } else {
            rest
        };
        let l1 = spec_load(acc1, pend1, 1 + p, buf);
        if !(l1.0 is Done) {
            (load_outcome(l1.0), l1.1, l1.2)
        } else {
            let len_bytes = l1.1.subrange(1, 1 + p as int);
            let crossed = l1.1.len() < 1 + 2 * p;
            let l2 = spec_load(l1.1, l1.2, 1 + 2 * p, buf);
            if !(l2.0 is Done) {
                (load_outcome(l2.0), l2.1, l2.2)
            } else {
                let stored = l2.1.subrange(1 + p as int, 1 + 2 * p as int);
                if crossed && stored != spec_checksum(len_bytes, p) {
                    spec_step(p, c, cap, buf, Seq::empty(), l2.2)
                } else {
                    let len = spec_be_val(len_bytes);
                    if len > cap {
                        spec_step(p, c, cap, buf, Seq::empty(), l2.2)
                    } else {
                        let l3 = spec_load(l2.1, l2.2, 1 + 2 * p + len, buf);
                        if !(l3.0 is Done) {
                            (load_outcome(l3.0), l3.1, l3.2)
                        } else {
                            let payload = l3.1.subrange(
                                1 + 2 * p as int,
                                (1 + 2 * p + len) as int,
                            );
                            let l4 = spec_load(l3.1, l3.2, 1 + 2 * p + len + c, buf);
                            if !(l4.0 is Done) {
                                (load_outcome(l4.0), l4.1, l4.2)
                            } else {
                                let stored2 = l4.1.subrange(
                                    (1 + 2 * p + len) as int,
                                    (1 + 2 * p + len + c) as int,
                                );
                                if stored2 != spec_checksum(payload, c) {
                                    spec_step(p, c, cap, buf, Seq::empty(), l4.2)
                                } else {
                                    (DecodeOutcome::Delivered(payload), Seq::empty(), l4.2)
                                }
                            }
                        }
                    }
                }
            }
        }
    }
}

} // verus!
