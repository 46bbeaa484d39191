//! The serial link as `get`/`put` see it: write, read, drain and sleep, each call
//! recorded in a history that contracts speak of; an in-memory link for tests; and the
//! choice of port.

use vstd::prelude::*;

use crate::config::{lookup, Config, DEFAULT_PC1600EMUL_DIR, KEY_PC1600EMUL_PORT, PC1600EMUL_SOCKET_FILENAME};
use crate::pocket_device::PocketDevice;
use crate::textbuf;

verus! {

/// One call on a link, as recorded.
pub enum Op {
    Write(Seq<u8>),
    /// A write of these bytes that returned an error.
    WriteFailed(Seq<u8>),
    /// A read that waited up to this many milliseconds, and what it returned.
    Read(nat, Seq<u8>),
    /// A read that waited up to this many milliseconds and returned an error.
    ReadFailed(nat),
    Drain(nat),
    Sleep(nat),
}

/// A link failed (the message of the underlying error).
#[derive(Clone, Debug, PartialEq, Eq)]
pub struct TransportError {
    pub message: String,
}

/// A serial link to the Pocket Computer. Durations are in milliseconds.
///
/// A link that keeps a record of its calls says so by `records`; the contracts below
/// speak of that record, and a link that keeps none (the default) promises nothing of it.
pub trait Transport {
    /// This link records its calls in `history`.
    open spec fn records(&self) -> bool {
        false
    }

    /// The calls made on the link so far.
    open spec fn history(&self) -> Seq<Op> {
        Seq::empty()
    }

    /// What this link keeps true of itself across calls.
    open spec fn inv(&self) -> bool {
        true
    }

    /// Writes and reads on this link never fail.
    open spec fn never_fails(&self) -> bool {
        false
    }

    /// Write all of `bytes`.
    fn write_all(&mut self, bytes: &[u8]) -> (r: Result<(), TransportError>)
        ensures
            final(self).records() == old(self).records(),
            old(self).inv() ==> final(self).inv(),
            final(self).never_fails() == old(self).never_fails(),
            old(self).never_fails() ==> r is Ok,
            old(self).records() && r is Ok ==> final(self).history() == old(self).history().push(
                Op::Write(bytes@),
            ),
            old(self).records() && r is Err ==> final(self).history() == old(self).history().push(
                Op::WriteFailed(bytes@),
            ),
    ;

    /// Whatever has arrived, waiting up to `poll_ms` for something; empty if nothing.
    fn read(&mut self, poll_ms: u64) -> (r: Result<Vec<u8>, TransportError>)
        ensures
            final(self).records() == old(self).records(),
            old(self).inv() ==> final(self).inv(),
            final(self).never_fails() == old(self).never_fails(),
            old(self).never_fails() ==> r is Ok,
            old(self).records() ==> (r matches Ok(b) ==> final(self).history() == old(self).history().push(
                Op::Read(poll_ms as nat, b@),
            )),
            old(self).records() && r is Err ==> final(self).history() == old(self).history().push(
                Op::ReadFailed(poll_ms as nat),
            ),
    ;

    /// Wait until written bytes have left, up to `timeout_ms`.
    fn drain(&mut self, timeout_ms: u64)
        ensures
            final(self).records() == old(self).records(),
            old(self).inv() ==> final(self).inv(),
            final(self).never_fails() == old(self).never_fails(),
            old(self).records() ==> final(self).history() == old(self).history().push(
                Op::Drain(timeout_ms as nat),
            ),
    ;

    /// Pause for `ms`.
    fn sleep(&mut self, ms: u64)
        ensures
            final(self).records() == old(self).records(),
            old(self).inv() ==> final(self).inv(),
            final(self).never_fails() == old(self).never_fails(),
            old(self).records() ==> final(self).history() == old(self).history().push(Op::Sleep(ms as nat)),
    ;
}

/// The bytes of the writes in `h`, in order.
pub open spec fn writes_of(h: Seq<Op>) -> Seq<u8>
    decreases h.len(),
{
    if h.len() == 0 {
        Seq::empty()
    } else {
        writes_of(h.drop_last()) + match h.last() {
            Op::Write(b) => b,
            _ => Seq::empty(),
        }
    }
}

/// The length of each write in `h`, in order.
pub open spec fn write_lens(h: Seq<Op>) -> Seq<usize>
    decreases h.len(),
{
    if h.len() == 0 {
        Seq::empty()
    } else {
        write_lens(h.drop_last()) + match h.last() {
            Op::Write(b) => seq![b.len() as usize],
            _ => Seq::empty(),
        }
    }
}

/// The pauses in `h`, in order.
pub open spec fn sleeps_of(h: Seq<Op>) -> Seq<u64>
    decreases h.len(),
{
    if h.len() == 0 {
        Seq::empty()
    } else {
        sleeps_of(h.drop_last()) + match h.last() {
            Op::Sleep(ms) => seq![ms as u64],
            _ => Seq::empty(),
        }
    }
}

/// The number of drains in `h`.
pub open spec fn drains_of(h: Seq<Op>) -> nat
    decreases h.len(),
{
    if h.len() == 0 {
        0
    } else {
        drains_of(h.drop_last()) + match h.last() {
            Op::Drain(_) => 1nat,
            _ => 0nat,
        }
    }
}

/// In-memory link for tests: records every write and every requested sleep, in order,
/// without waiting, and hands out queued chunks on reads.
pub struct FakeSerial {
    pub written: Vec<u8>,
    /// Byte length of each `write_all` call, in order.
    pub write_calls: Vec<usize>,
    pub sleeps: Vec<u64>,
    pub drains: usize,
    /// Chunks the next reads return, first first.
    pub to_read: Vec<Vec<u8>>,
    /// The calls made so far.
    pub log: Ghost<Seq<Op>>,
}

impl FakeSerial {
    pub fn new() -> (t: FakeSerial)
        ensures
            t.written@.len() == 0,
            t.write_calls@.len() == 0,
            t.sleeps@.len() == 0,
            t.drains == 0,
            t.to_read@.len() == 0,
            t.records(),
            t.history() == Seq::<Op>::empty(),
            t.inv(),
            t.never_fails(),
    {
        FakeSerial {
            written: Vec::new(),
            write_calls: Vec::new(),
            sleeps: Vec::new(),
            drains: 0,
            to_read: Vec::new(),
            log: Ghost(Seq::empty()),
        }
    }

    /// Queue a chunk to be returned by a later `read()`.
    pub fn push_incoming(&mut self, bytes: &[u8])
        ensures
            final(self).to_read@.len() == old(self).to_read@.len() + 1,
            forall|i: int| 0 <= i < old(self).to_read@.len() ==> final(self).to_read@[i] == old(self).to_read@[i],
            final(self).to_read@.last()@ == bytes@,
            final(self).written == old(self).written,
            final(self).write_calls == old(self).write_calls,
            final(self).sleeps == old(self).sleeps,
            final(self).drains == old(self).drains,
            final(self).history() == old(self).history(),
    {
        self.to_read.push(vstd::slice::slice_to_vec(bytes));
    }
}

impl Transport for FakeSerial {
    open spec fn records(&self) -> bool {
        true
    }

    open spec fn history(&self) -> Seq<Op> {
        self.log@
    }

    /// The recorded fields are what the calls in the log wrote, paused and drained (the
    /// drain count stops at the largest `usize`).
    open spec fn inv(&self) -> bool {
        &&& self.written@ == writes_of(self.log@)
        &&& self.write_calls@ == write_lens(self.log@)
        &&& self.sleeps@ == sleeps_of(self.log@)
        &&& self.drains == if drains_of(self.log@) < usize::MAX {
            drains_of(self.log@)
        } else {
            usize::MAX as nat
        }
    }

    open spec fn never_fails(&self) -> bool {
        true
    }

    fn write_all(&mut self, bytes: &[u8]) -> (r: Result<(), TransportError>)
        ensures
            r is Ok,
            final(self).written@ == old(self).written@ + bytes@,
            final(self).write_calls@ == old(self).write_calls@.push(bytes@.len() as usize),
            final(self).sleeps == old(self).sleeps,
            final(self).drains == old(self).drains,
            final(self).to_read == old(self).to_read,
    {
        let mut i: usize = 0;
        let ghost start = self.written@;
        while i < bytes.len()
            invariant
                i <= bytes@.len(),
                start == old(self).written@,
                self.written@ == start + bytes@.take(i as int),
                self.write_calls == old(self).write_calls,
                self.sleeps == old(self).sleeps,
                self.drains == old(self).drains,
                self.to_read == old(self).to_read,
                self.log == old(self).log,
            decreases bytes@.len() - i,
        {
            self.written.push(bytes[i]);
            i = i + 1;
            assert(self.written@ =~= start + bytes@.take(i as int));
        }
        assert(bytes@.take(i as int) =~= bytes@);
        self.write_calls.push(bytes.len());
        proof {
            let h0 = self.log@;
            self.log@ = self.log@.push(Op::Write(bytes@));
            assert(self.log@.drop_last() =~= h0);
            assert(writes_of(self.log@) =~= writes_of(h0) + bytes@);
            assert(write_lens(self.log@) =~= write_lens(h0).push(bytes@.len() as usize));
            assert(sleeps_of(self.log@) =~= sleeps_of(h0));
        }
        Ok(())
    }

    fn read(&mut self, poll_ms: u64) -> (r: Result<Vec<u8>, TransportError>)
        ensures
            old(self).to_read@.len() > 0 ==> (r matches Ok(b) && b == old(self).to_read@[0]
                && final(self).to_read@ == old(self).to_read@.drop_first()),
            old(self).to_read@.len() == 0 ==> (r matches Ok(b) && b@.len() == 0 && final(self).to_read@.len()
                == 0),
            final(self).written == old(self).written,
            final(self).write_calls == old(self).write_calls,
            final(self).sleeps == old(self).sleeps,
            final(self).drains == old(self).drains,
    {
        let b = if self.to_read.len() > 0 {
            self.to_read.remove(0)
        } else {
            Vec::new()
        };
        proof {
            let h0 = self.log@;
            self.log@ = self.log@.push(Op::Read(poll_ms as nat, b@));
            assert(self.log@.drop_last() =~= h0);
            assert(writes_of(self.log@) =~= writes_of(h0));
            assert(write_lens(self.log@) =~= write_lens(h0));
            assert(sleeps_of(self.log@) =~= sleeps_of(h0));
        }
        Ok(b)
    }

    fn drain(&mut self, timeout_ms: u64)
        ensures
            final(self).drains == if old(self).drains < usize::MAX {
                old(self).drains + 1
            } else {
                old(self).drains as int
            },
            final(self).written == old(self).written,
            final(self).write_calls == old(self).write_calls,
            final(self).sleeps == old(self).sleeps,
            final(self).to_read == old(self).to_read,
    {
        if self.drains < usize::MAX {
            self.drains = self.drains + 1;
        }
        proof {
            let h0 = self.log@;
            self.log@ = self.log@.push(Op::Drain(timeout_ms as nat));
            assert(self.log@.drop_last() =~= h0);
            assert(writes_of(self.log@) =~= writes_of(h0));
            assert(write_lens(self.log@) =~= write_lens(h0));
            assert(sleeps_of(self.log@) =~= sleeps_of(h0));
        }
    }

    fn sleep(&mut self, ms: u64)
        ensures
            final(self).sleeps@ == old(self).sleeps@.push(ms),
            final(self).written == old(self).written,
            final(self).write_calls == old(self).write_calls,
            final(self).drains == old(self).drains,
            final(self).to_read == old(self).to_read,
    {
        self.sleeps.push(ms);
        proof {
            let h0 = self.log@;
            self.log@ = self.log@.push(Op::Sleep(ms as nat));
            assert(self.log@.drop_last() =~= h0);
            assert(writes_of(self.log@) =~= writes_of(h0));
            assert(write_lens(self.log@) =~= write_lens(h0));
            assert(sleeps_of(self.log@) =~= sleeps_of(h0).push(ms));
        }
    }
}

/// `dir` without trailing `/`s.
pub open spec fn trim_slashes(dir: Seq<char>) -> Seq<char>
    decreases dir.len(),
{
    if dir.len() > 0 && dir.last() == '/' {
        trim_slashes(dir.drop_last())
    } else {
        dir
    }
}

/// The port for `device`: the one given; for the emulator, its socket in the configured
/// directory (default `/tmp`); otherwise `None`, the port is to be found by scanning.
pub open spec fn resolve_port_spec(device: PocketDevice, explicit: Option<Seq<char>>, config: Seq<(Seq<char>, Seq<char>)>) -> Option<Seq<char>> {
    match explicit {
        Some(p) => Some(p),
        None => if device == PocketDevice::Pc1600Emul {
            let dir = match lookup(config, KEY_PC1600EMUL_PORT@) {
                Some(d) => d,
                None => DEFAULT_PC1600EMUL_DIR@,
            };
            Some(trim_slashes(dir) + seq!['/'] + PC1600EMUL_SOCKET_FILENAME@)
        } else {
            None
        },
    }
}

/// Resolve the port to use: an explicit `--port` wins; for `pc1600emul` it is the fixed
/// socket file name in the configured (or default) directory, always joined with `/`;
/// otherwise `None`: the caller scans for a serial port.
pub fn resolve_port(device: PocketDevice, explicit: Option<&str>, config: &Config) -> (r: Option<String>)
    ensures
        match r {
            Some(p) => resolve_port_spec(
                device,
                match explicit {
                    Some(e) => Some(e@),
                    None => None,
                },
                config@,
            ) == Some(p@),
            None => resolve_port_spec(
                device,
                match explicit {
                    Some(e) => Some(e@),
                    None => None,
                },
                config@,
            ) is None,
        },
{
    if let Some(p) = explicit {
        return Some(p.to_owned());
    }
    if device.is_emulator() {
        let dir = match config.get(KEY_PC1600EMUL_PORT) {
            Some(d) => d,
            None => DEFAULT_PC1600EMUL_DIR,
        };
        let cs = textbuf::chars_of(dir);
        let mut n = cs.len();
        assert(cs@.take(n as int) =~= cs@);
        while n > 0 && cs[n - 1] == '/'
            invariant
                n <= cs@.len(),
                trim_slashes(cs@) == trim_slashes(cs@.take(n as int)),
            decreases n,
        {
            assert(cs@.take(n as int).drop_last() =~= cs@.take(n - 1));
            n = n - 1;
        }
        assert(cs@.take(cs@.len() as int) =~= cs@);
        let mut out = textbuf::string_of(&cs.as_slice()[0..n]);
        assert(cs@.subrange(0, n as int) =~= cs@.take(n as int));
        textbuf::push_char(&mut out, '/');
        textbuf::push_str(&mut out, PC1600EMUL_SOCKET_FILENAME);
        return Some(out);
    }
    None
}

} // verus!
