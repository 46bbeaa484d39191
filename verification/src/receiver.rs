//! `get`'s accumulation and end-of-transfer decisions. A transfer is complete once the
//! buffer holds as many bytes as a recognized header announces, or, without one (and
//! always in raw mode), when nothing more has arrived for the idle timeout after the
//! first byte; before the first byte `get` waits indefinitely for the device to start.

use vstd::prelude::*;

use crate::header::{expected_total_bytes, expected_total_spec, lemma_expected_stable};
use crate::serial::{Op, Transport, TransportError};

verus! {

/// Accumulates bytes and decides when a transfer is complete.
pub struct Receiver {
    buf: Vec<u8>,
    raw_mode: bool,
    expected_total: Option<usize>,
}

pub struct ReceiverView {
    pub buf: Seq<u8>,
    pub raw_mode: bool,
    /// The total announced by the header, once one has been seen.
    pub expected: Option<int>,
}

impl View for Receiver {
    type V = ReceiverView;

    closed spec fn view(&self) -> ReceiverView {
        ReceiverView {
            buf: self.buf@,
            raw_mode: self.raw_mode,
            expected: match self.expected_total {
                Some(n) => Some(n as int),
                None => None,
            },
        }
    }
}

/// A buffer small enough for the header scan (a machine limit).
pub open spec fn fits(len: nat) -> bool {
    len <= usize::MAX - 0x100_0000
}

/// The state after `bytes` arrive, and whether the transfer is then complete.
pub open spec fn feed_spec(r: ReceiverView, bytes: Seq<u8>) -> (ReceiverView, bool) {
    let buf = r.buf + bytes;
    let expected = if r.raw_mode {
        r.expected
    } else if r.expected is None {
        expected_total_spec(buf)
    } else {
        r.expected
    };
    let next = ReceiverView { buf, raw_mode: r.raw_mode, expected };
    (next, !r.raw_mode && (expected matches Some(t) && buf.len() >= t))
}

impl Receiver {
    pub fn new(raw_mode: bool) -> (r: Receiver)
        ensures
            r@ == (ReceiverView { buf: Seq::empty(), raw_mode, expected: None }),
    {
        Receiver { buf: Vec::new(), raw_mode, expected_total: None }
    }

    /// Feed newly read bytes; `true` once the transfer is complete by the header's
    /// length (never in raw mode, which relies on the idle timeout).
    pub fn feed(&mut self, bytes: &[u8]) -> (done: bool)
        requires
            fits(old(self)@.buf.len() + bytes@.len()),
        ensures
            (final(self)@, done) == feed_spec(old(self)@, bytes@),
    {
        let mut i: usize = 0;
        let ghost start = self.buf@;
        while i < bytes.len()
            invariant
                i <= bytes@.len(),
                start == old(self).buf@,
                self.buf@ == start + bytes@.take(i as int),
                self.raw_mode == old(self).raw_mode,
                self.expected_total == old(self).expected_total,
            decreases bytes@.len() - i,
        {
            self.buf.push(bytes[i]);
            i = i + 1;
            assert(self.buf@ =~= start + bytes@.take(i as int));
        }
        assert(bytes@.take(i as int) =~= bytes@);
        if self.raw_mode {
            return false;
        }
        if self.expected_total.is_none() {
            self.expected_total = expected_total_bytes(self.buf.as_slice());
        }
        match self.expected_total {
            Some(total) => self.buf.len() >= total,
            None => false,
        }
    }

    /// After a read: the bytes it returned are fed; an empty read ends the transfer once
    /// `quiet_ms` (time since the last byte arrived, `None` before the first) reaches
    /// `idle_timeout_ms`. `true` when the transfer is complete.
    pub fn after_read(&mut self, bytes: &[u8], quiet_ms: Option<u64>, idle_timeout_ms: u64) -> (done: bool)
        requires
            fits(old(self)@.buf.len() + bytes@.len()),
        ensures
            bytes@.len() > 0 ==> (final(self)@, done) == feed_spec(old(self)@, bytes@),
            bytes@.len() == 0 ==> final(self)@ == old(self)@ && done == (quiet_ms matches Some(q) && q
                >= idle_timeout_ms),
    {
        if bytes.len() > 0 {
            self.feed(bytes)
        } else {
            match quiet_ms {
                Some(q) => q >= idle_timeout_ms,
                None => false,
            }
        }
    }

    pub fn buffer(&self) -> (b: &[u8])
        ensures
            b@ == self@.buf,
    {
        self.buf.as_slice()
    }

    pub fn into_bytes(self) -> (b: Vec<u8>)
        ensures
            b@ == self@.buf,
    {
        self.buf
    }
}

/// How long one read waits for data.
pub const POLL_MS: u64 = 50;

#[verifier::external_type_specification]
#[verifier::external_body]
pub struct ExInstant(std::time::Instant);

/// `std::time::Instant::now`: a reading of the monotonic clock, of which nothing is
/// stated.
#[verifier::external_body]
fn instant_now() -> (t: std::time::Instant) {
    std::time::Instant::now()
}

/// Whole milliseconds elapsed since `t` (`Instant::elapsed`), at most the largest `u64`;
/// it depends on the time, so nothing is stated of it.
#[verifier::external_body]
fn millis_since(t: &std::time::Instant) -> (ms: u64) {
    u64::try_from(t.elapsed().as_millis()).unwrap_or(u64::MAX)
}

/// Every call is a read waiting up to [`POLL_MS`].
pub open spec fn only_reads(ops: Seq<Op>) -> bool {
    forall|i: int| 0 <= i < ops.len() ==> #[trigger] ops[i] is Read && ops[i]->Read_0 == POLL_MS
}

/// The bytes the reads returned, in order.
pub open spec fn read_bytes(ops: Seq<Op>) -> Seq<u8>
    decreases ops.len(),
{
    if ops.len() == 0 {
        Seq::empty()
    } else {
        read_bytes(ops.drop_last()) + match ops.last() {
            Op::Read(_, b) => b,
            _ => Seq::empty(),
        }
    }
}

/// The bytes a read returned (none for any other call).
pub open spec fn read_of(op: Op) -> Seq<u8> {
    match op {
        Op::Read(_, b) => b,
        _ => Seq::empty(),
    }
}

/// The receiver's state once the reads `ops` have been fed to a fresh one (an empty read
/// changes nothing).
pub open spec fn state_after(raw_mode: bool, ops: Seq<Op>) -> ReceiverView
    decreases ops.len(),
{
    if ops.len() == 0 {
        ReceiverView { buf: Seq::empty(), raw_mode, expected: None }
    } else {
        let r = state_after(raw_mode, ops.drop_last());
        let b = read_of(ops.last());
        if b.len() > 0 {
            feed_spec(r, b).0
        } else {
            r
        }
    }
}

/// The last of the reads `ops` completes the transfer by the header's length.
pub open spec fn completes(raw_mode: bool, ops: Seq<Op>) -> bool {
    &&& ops.len() > 0
    &&& read_of(ops.last()).len() > 0
    &&& feed_spec(state_after(raw_mode, ops.drop_last()), read_of(ops.last())).1
}

/// When a receive stops: at the first read that completes the transfer by the header's
/// length, and otherwise only at an empty read (the idle rule). In raw mode no read
/// completes it, so only the idle rule ends it.
pub open spec fn stop_rule(raw_mode: bool, ops: Seq<Op>) -> bool {
    &&& ops.len() > 0
    &&& forall|j: int| 0 < j < ops.len() ==> !completes(raw_mode, #[trigger] ops.take(j))
    &&& (completes(raw_mode, ops) || read_of(ops.last()).len() == 0)
}

/// How a receive that started at `h0` and stands at `h` failed: after some reads, the
/// next read failed; or the reads ended, the transfer incomplete, when `max_polls` of them
/// were made or what they returned no longer fitted in memory.
pub open spec fn receive_failed(h0: Seq<Op>, h: Seq<Op>, max_polls: nat) -> bool {
    exists|ops: Seq<Op>|
        #![trigger only_reads(ops)]
        only_reads(ops) && ops.len() <= max_polls && (h == h0 + ops.push(Op::ReadFailed(POLL_MS as nat)) || (h == h0 + ops && (
        ops.len() == max_polls || read_bytes(ops).len() > usize::MAX - 0x100_0000)))
}

/// Read from `transport` until the transfer is complete: the buffer reaches the length
/// the header announces, or (without one, and always in raw mode) nothing has arrived
/// for `idle_timeout_ms` since the last byte. Before the first byte it waits as long as
/// it takes. The result is what the reads returned, in order, and is not empty.
pub fn receive_until_done<T: Transport>(transport: &mut T, idle_timeout_ms: u64, raw_mode: bool) -> (r: Result<
    Vec<u8>,
    TransportError,
>)
    ensures
        final(transport).records() == old(transport).records(),
        old(transport).inv() ==> final(transport).inv(),
        final(transport).never_fails() == old(transport).never_fails(),
        r matches Ok(b) ==> b@.len() > 0,
        old(transport).records() ==> (r matches Ok(b) ==> exists|ops: Seq<Op>|
            final(transport).history() == old(transport).history() + ops && only_reads(ops) && read_bytes(ops) == b@
                && stop_rule(raw_mode, ops)),
        old(transport).records() && r is Err ==> receive_failed(
            old(transport).history(),
            final(transport).history(),
            u64::MAX as nat,
        ),
{
    receive_polls(transport, idle_timeout_ms, raw_mode, u64::MAX)
}

/// As [`receive_until_done`], giving up after `max_polls` reads.
fn receive_polls<T: Transport>(transport: &mut T, idle_timeout_ms: u64, raw_mode: bool, max_polls: u64) -> (r: Result<
    Vec<u8>,
    TransportError,
>)
    ensures
        final(transport).records() == old(transport).records(),
        old(transport).inv() ==> final(transport).inv(),
        final(transport).never_fails() == old(transport).never_fails(),
        r matches Ok(b) ==> b@.len() > 0,
        old(transport).records() ==> (r matches Ok(b) ==> exists|ops: Seq<Op>|
            final(transport).history() == old(transport).history() + ops && only_reads(ops) && read_bytes(ops) == b@
                && stop_rule(raw_mode, ops)),
        old(transport).records() && r is Err ==> receive_failed(
            old(transport).history(),
            final(transport).history(),
            max_polls as nat,
        ),
{
    let ghost h0 = transport.history();
    let ghost rec = transport.records();
    let ghost inv0 = transport.inv();
    let ghost nf = transport.never_fails();
    let ghost mut ops: Seq<Op> = Seq::empty();
    let mut receiver = Receiver::new(raw_mode);
    let mut last: Option<std::time::Instant> = None;
    let mut polls = max_polls;
    while polls > 0
        invariant
            h0 == old(transport).history(),
            rec == old(transport).records(),
            inv0 == old(transport).inv(),
            nf == old(transport).never_fails(),
            inv0 ==> transport.inv(),
            transport.never_fails() == nf,
            transport.records() == rec,
            rec ==> transport.history() == h0 + ops,
            only_reads(ops),
            receiver@.buf == read_bytes(ops),
            receiver@ == state_after(raw_mode, ops),
            forall|j: int| 0 < j <= ops.len() ==> !completes(raw_mode, #[trigger] ops.take(j)),
            receiver@.raw_mode == raw_mode,
            last is Some ==> receiver@.buf.len() > 0,
            polls <= max_polls,
            ops.len() == max_polls - polls,
        decreases polls,
    {
        polls = polls - 1;
        let bytes = match transport.read(POLL_MS) {
            Ok(b) => b,
            Err(e) => {
                proof {
                    if rec {
                        assert(transport.history() =~= h0 + ops.push(Op::ReadFailed(POLL_MS as nat)));
                        assert(only_reads(ops));
                    }
                }
                return Err(e);
            },
        };
        let ghost before = ops;
        proof {
            ops = ops.push(Op::Read(POLL_MS as nat, bytes@));
            assert(ops.drop_last() =~= before);
            assert forall|i: int| 0 <= i < ops.len() implies #[trigger] ops[i] is Read && ops[i]->Read_0 == POLL_MS by {
                if i < before.len() {
                    assert(ops[i] == before[i]);
                }
            }
            if rec {
                assert(transport.history() =~= h0 + ops);
            }
        }
        let have = receiver.buffer().len();
        if have > usize::MAX - 0x100_0000 || bytes.len() > usize::MAX - 0x100_0000 - have {
            proof {
                assert(read_bytes(ops) == read_bytes(ops.drop_last()) + bytes@);
                assert(only_reads(ops));
            }
            return Err(TransportError { message: "the transfer does not fit in memory".to_owned() });
        }
        let quiet = match &last {
            Some(t) => Some(millis_since(t)),
            None => None,
        };
        let done = receiver.after_read(bytes.as_slice(), quiet, idle_timeout_ms);
        proof {
            assert(ops.drop_last() =~= before);
            assert(ops.last() == Op::Read(POLL_MS as nat, bytes@));
            assert(ops.take(ops.len() as int) =~= ops);
            assert forall|j: int| 0 < j < ops.len() implies #[trigger] ops.take(j) == before.take(j) by {
                assert(ops.take(j) =~= before.take(j));
            }
            assert(receiver@ == state_after(raw_mode, ops));
            assert(bytes@.len() > 0 ==> done == completes(raw_mode, ops));
            assert(bytes@.len() == 0 ==> !completes(raw_mode, ops));
        }
        if done {
            let b = receiver.into_bytes();
            proof {
                assert(stop_rule(raw_mode, ops));
                assert(read_bytes(ops) == read_bytes(ops.drop_last()) + bytes@);
                if rec {
                    assert(transport.history() == h0 + ops && only_reads(ops) && read_bytes(ops) == b@);
                }
            }
            return Ok(b);
        }
        if bytes.len() > 0 {
            last = Some(instant_now());
        }
    }
    proof {
        assert(only_reads(ops));
    }
    Err(TransportError { message: "no end of transfer".to_owned() })
}

/// However the bytes arrive split into reads, the receiver ends up holding them all,
/// knows the total the header among them announces (none in raw mode), and a read
/// completes the transfer exactly when it brings bytes and the bytes so far reach that
/// total (never in raw mode).
pub proof fn lemma_feeds(raw_mode: bool, ops: Seq<Op>)
    ensures
        state_after(raw_mode, ops) == (ReceiverView {
            buf: read_bytes(ops),
            raw_mode,
            expected: if raw_mode {
                None
            } else {
                expected_total_spec(read_bytes(ops))
            },
        }),
        completes(raw_mode, ops) == (!raw_mode && ops.len() > 0 && read_of(ops.last()).len() > 0 && (
        expected_total_spec(read_bytes(ops)) matches Some(t) && read_bytes(ops).len() >= t)),
    decreases ops.len(),
{
    if ops.len() > 0 {
        let p = ops.drop_last();
        lemma_feeds(raw_mode, p);
        let b = read_of(ops.last());
        assert(read_bytes(ops) == read_bytes(p) + b);
        if b.len() == 0 {
            assert(read_bytes(p) + b =~= read_bytes(p));
        }
        if !raw_mode && expected_total_spec(read_bytes(p)) is Some {
            lemma_expected_stable(read_bytes(p), b);
        }
    } else {
        assert(read_bytes(ops) =~= Seq::<u8>::empty());
    }
}

} // verus!
