//! `put`'s paced and unpaced sending.
//!
//! Paced links (the PC-1500 family, the PC-1600 emulator, a PC-1600 without RTS/CTS)
//! get the header at full speed, a pause, then the payload a byte at a time with a
//! short delay; a PC-1600 with RTS/CTS gets everything at once and throttles by
//! handshake.

use vstd::prelude::*;

use crate::cp437::encode_lossy_seq;
use crate::pocket_device::{pc1500_family, PocketDevice};
use crate::serial::{Op, Transport, TransportError};

verus! {

/// Pause after a paced header, in milliseconds.
pub const HEADER_PAUSE: u64 = 300;

/// Delay after each paced payload byte.
pub const BYTE_DELAY: u64 = 1;

/// Pause after a transfer (and after each paced ASCII line).
pub const TAIL_PAUSE: u64 = 500;

/// How long to wait for written bytes to leave.
pub const DRAIN_TIMEOUT: u64 = 2000;

/// Extra pause after a segment boundary marker in a paced PC-1600 payload.
pub const SEGMENT_PAUSE: u64 = 300;

/// The sender paces bytes itself (see `PocketDevice::is_paced_send`).
pub open spec fn paced(device: PocketDevice, flow_control: bool) -> bool {
    !(device == PocketDevice::Pc1600 && flow_control)
}

pub open spec fn pc1600_family(device: PocketDevice) -> bool {
    device == PocketDevice::Pc1600 || device == PocketDevice::Pc1600Emul
}

/// Each byte written on its own, followed by the byte delay.
pub open spec fn byte_ops(bs: Seq<u8>) -> Seq<Op>
    decreases bs.len(),
{
    if bs.len() == 0 {
        Seq::empty()
    } else {
        byte_ops(bs.drop_last()) + seq![Op::Write(seq![bs.last()]), Op::Sleep(BYTE_DELAY as nat)]
    }
}

/// `0xFF 0x00 0x00` starts at `i`.
pub open spec fn marker_at(p: Seq<u8>, i: int) -> bool {
    0 <= i && i + 3 <= p.len() && p[i] == 0xFF && p[i + 1] == 0x00 && p[i + 2] == 0x00
}

/// A paced PC-1600 payload from the piece starting at `start`, scanning at `i`: each
/// piece up to and including a marker is sent byte by byte, then the segment pause.
pub open spec fn segment_ops(p: Seq<u8>, start: int, i: int) -> Seq<Op>
    decreases p.len() - i,
{
    if i < start || start < 0 || i + 3 > p.len() {
        byte_ops(p.subrange(start, p.len() as int))
    } else if marker_at(p, i) {
        byte_ops(p.subrange(start, i + 3)) + seq![Op::Sleep(SEGMENT_PAUSE as nat)] + segment_ops(p, i + 3, i + 3)
    } else {
        segment_ops(p, start, i + 1)
    }
}

pub open spec fn paced_payload_ops(device: PocketDevice, p: Seq<u8>) -> Seq<Op> {
    if pc1600_family(device) {
        segment_ops(p, 0, 0)
    } else {
        byte_ops(p)
    }
}

/// The calls from `h0` to `h` are the planned calls `plan` up to one of its writes, and that
/// write failed: a send stops at the first write the link refuses.
pub open spec fn failed_plan(h0: Seq<Op>, h: Seq<Op>, plan: Seq<Op>) -> bool {
    exists|k: int|
        0 <= k < plan.len() && (#[trigger] plan[k]) is Write && h == h0 + plan.take(k).push(
            Op::WriteFailed(plan[k]->Write_0),
        )
}

proof fn lemma_failed_write(h0: Seq<Op>, x: Seq<u8>)
    ensures
        failed_plan(h0, h0.push(Op::WriteFailed(x)), seq![Op::Write(x)]),
{
    let plan = seq![Op::Write(x)];
    assert(plan[0] is Write);
    assert(h0.push(Op::WriteFailed(x)) =~= h0 + plan.take(0).push(Op::WriteFailed(plan[0]->Write_0)));
}

proof fn lemma_failed_after(h0: Seq<Op>, d: Seq<Op>, h: Seq<Op>, q: Seq<Op>)
    requires
        failed_plan(h0 + d, h, q),
    ensures
        failed_plan(h0, h, d + q),
{
    let k = choose|k: int|
        0 <= k < q.len() && (#[trigger] q[k]) is Write && h == (h0 + d) + q.take(k).push(
            Op::WriteFailed(q[k]->Write_0),
        );
    let p = d + q;
    let j = d.len() + k;
    assert(p[j] == q[k]);
    assert(p.take(j) =~= d + q.take(k));
    assert(h =~= h0 + p.take(j).push(Op::WriteFailed(p[j]->Write_0)));
}

proof fn lemma_failed_prefix(h0: Seq<Op>, h: Seq<Op>, q: Seq<Op>, plan: Seq<Op>)
    requires
        failed_plan(h0, h, q),
        q.is_prefix_of(plan),
    ensures
        failed_plan(h0, h, plan),
{
    let k = choose|k: int|
        0 <= k < q.len() && (#[trigger] q[k]) is Write && h == h0 + q.take(k).push(Op::WriteFailed(q[k]->Write_0));
    assert(plan[k] == q[k]);
    assert(plan.take(k) =~= q.take(k));
}

proof fn lemma_byte_ops_add(a: Seq<u8>, b: Seq<u8>)
    ensures
        byte_ops(a + b) == byte_ops(a) + byte_ops(b),
    decreases b.len(),
{
    if b.len() == 0 {
        assert(a + b =~= a);
        assert(byte_ops(a) + byte_ops(b) =~= byte_ops(a));
    } else {
        lemma_byte_ops_add(a, b.drop_last());
        assert((a + b).drop_last() =~= a + b.drop_last());
        assert(byte_ops(a + b) =~= byte_ops(a) + byte_ops(b));
    }
}

/// The calls a successful `send_data` makes.
pub open spec fn send_spec(device: PocketDevice, flow_control: bool, header_len: nat, data: Seq<u8>) -> Seq<Op> {
    if paced(device, flow_control) {
        let h = if header_len < data.len() {
            header_len as int
        } else {
            data.len() as int
        };
        seq![Op::Write(data.take(h)), Op::Sleep(HEADER_PAUSE as nat)] + paced_payload_ops(device, data.skip(h))
            + seq![Op::Drain(DRAIN_TIMEOUT as nat), Op::Sleep(TAIL_PAUSE as nat)]
    } else {
        seq![Op::Write(data), Op::Drain(DRAIN_TIMEOUT as nat)]
    }
}

/// Send a whole data block: `header_len` leading bytes are the header (0 for a
/// headerless send).
pub fn send_data<T: Transport>(
    transport: &mut T,
    device: PocketDevice,
    header_len: usize,
    data: &[u8],
    flow_control: bool,
) -> (r: Result<(), TransportError>)
    ensures
        final(transport).records() == old(transport).records(),
        old(transport).inv() ==> final(transport).inv(),
        final(transport).never_fails() == old(transport).never_fails(),
        old(transport).never_fails() ==> r is Ok,
        old(transport).records() && r is Ok ==> final(transport).history() == old(transport).history() + send_spec(
            device,
            flow_control,
            header_len as nat,
            data@,
        ),
        old(transport).records() && r is Err ==> failed_plan(
            old(transport).history(),
            final(transport).history(),
            send_spec(device, flow_control, header_len as nat, data@),
        ),
{
    let ghost h0 = transport.history();
    let ghost rec = transport.records();
    let ghost inv0 = transport.inv();
    let ghost nf = transport.never_fails();
    let ghost plan = send_spec(device, flow_control, header_len as nat, data@);
    if device.is_paced_send(flow_control) {
        let h = if header_len < data.len() {
            header_len
        } else {
            data.len()
        };
        let header = vstd::slice::slice_subrange(data, 0, h);
        let payload = vstd::slice::slice_subrange(data, h, data.len());
        assert(header@ =~= data@.take(h as int));
        assert(payload@ =~= data@.skip(h as int));
        match transport.write_all(header) {
            Ok(()) => {},
            Err(e) => {
                proof {
                    if rec {
                        lemma_failed_write(h0, header@);
                        let q = seq![Op::Write(header@)];
                        assert(q =~= plan.subrange(0, 1));
                        lemma_failed_prefix(h0, transport.history(), q, plan);
                    }
                }
                return Err(e);
            },
        }
        transport.sleep(HEADER_PAUSE);
        match write_paced_payload(transport, device, payload) {
            Ok(()) => {},
            Err(e) => {
                proof {
                    if rec {
                        let d = seq![Op::Write(header@), Op::Sleep(HEADER_PAUSE as nat)];
                        assert(h0.push(Op::Write(header@)).push(Op::Sleep(HEADER_PAUSE as nat)) =~= h0 + d);
                        let ppo = paced_payload_ops(device, payload@);
                        lemma_failed_after(h0, d, transport.history(), ppo);
                        let q = d + ppo;
                        assert(q =~= plan.subrange(0, q.len() as int));
                        lemma_failed_prefix(h0, transport.history(), q, plan);
                    }
                }
                return Err(e);
            },
        }
        transport.drain(DRAIN_TIMEOUT);
        transport.sleep(TAIL_PAUSE);
        assert(rec ==> transport.history() =~= h0 + send_spec(device, flow_control, header_len as nat, data@));
    } else {
        match transport.write_all(data) {
            Ok(()) => {},
            Err(e) => {
                proof {
                    if rec {
                        lemma_failed_write(h0, data@);
                        let q = seq![Op::Write(data@)];
                        assert(q =~= plan.subrange(0, 1));
                        lemma_failed_prefix(h0, transport.history(), q, plan);
                    }
                }
                return Err(e);
            },
        }
        transport.drain(DRAIN_TIMEOUT);
        assert(rec ==> transport.history() =~= h0 + send_spec(device, flow_control, header_len as nat, data@));
    }
    Ok(())
}

/// Send a paced payload, with the extra segment pause after every `0xFF 0x00 0x00`
/// marker when the device is of the PC-1600 family.
fn write_paced_payload<T: Transport>(transport: &mut T, device: PocketDevice, payload: &[u8]) -> (r: Result<
    (),
    TransportError,
>)
    ensures
        final(transport).records() == old(transport).records(),
        old(transport).inv() ==> final(transport).inv(),
        final(transport).never_fails() == old(transport).never_fails(),
        old(transport).never_fails() ==> r is Ok,
        old(transport).records() && r is Ok ==> final(transport).history() == old(transport).history() + paced_payload_ops(device, payload@),
        old(transport).records() && r is Err ==> failed_plan(
            old(transport).history(),
            final(transport).history(),
            paced_payload_ops(device, payload@),
        ),
{
    if !device.is_pc1600_family() {
        return write_byte_by_byte(transport, payload);
    }
    let ghost h0 = transport.history();
    let ghost rec = transport.records();
    let ghost inv0 = transport.inv();
    let ghost nf = transport.never_fails();
    let ghost p = payload@;
    let mut start: usize = 0;
    let mut i: usize = 0;
    let ghost mut done: Seq<Op> = Seq::empty();
    assert(transport.history() =~= h0 + done);
    assert(done + segment_ops(p, 0, 0) =~= segment_ops(p, 0, 0));
    while payload.len() >= 3 && i <= payload.len() - 3
        invariant
            start <= i <= payload@.len(),
            p == payload@,
            h0 == old(transport).history(),
            rec == old(transport).records(),
            inv0 == old(transport).inv(),
            nf == old(transport).never_fails(),
            inv0 ==> transport.inv(),
            transport.never_fails() == nf,
            transport.records() == rec,
            rec ==> transport.history() == h0 + done,
            done + segment_ops(p, start as int, i as int) == segment_ops(p, 0, 0),
            pc1600_family(device),
        decreases payload@.len() - i,
    {
        if payload[i] == 0xFF && payload[i + 1] == 0x00 && payload[i + 2] == 0x00 {
            let end = i + 3;
            let piece = vstd::slice::slice_subrange(payload, start, end);
            let ghost before = transport.history();
            match write_byte_by_byte(transport, piece) {
                Ok(()) => {},
                Err(e) => {
                    proof {
                        if rec {
                            let q = done + byte_ops(piece@);
                            lemma_failed_after(h0, done, transport.history(), byte_ops(piece@));
                            assert(piece@ =~= p.subrange(start as int, end as int));
                            let plan = segment_ops(p, 0, 0);
                            assert(plan =~= q + (seq![Op::Sleep(SEGMENT_PAUSE as nat)] + segment_ops(
                                p,
                                end as int,
                                end as int,
                            )));
                            assert(q =~= plan.subrange(0, q.len() as int));
                            lemma_failed_prefix(h0, transport.history(), q, plan);
                        }
                    }
                    return Err(e);
                },
            }
            transport.sleep(SEGMENT_PAUSE);
            proof {
                let more = byte_ops(p.subrange(start as int, end as int)) + seq![Op::Sleep(SEGMENT_PAUSE as nat)];
                assert(rec ==> transport.history() =~= h0 + (done + more));
                assert((done + more) + segment_ops(p, end as int, end as int) =~= done + segment_ops(
                    p,
                    start as int,
                    i as int,
                ));
                done = done + more;
            }
            start = end;
            i = end;
        } else {
            assert(!marker_at(p, i as int));
            i = i + 1;
        }
    }
    let rest = vstd::slice::slice_subrange(payload, start, payload.len());
    match write_byte_by_byte(transport, rest) {
        Ok(()) => {},
        Err(e) => {
            proof {
                if rec {
                    lemma_failed_after(h0, done, transport.history(), byte_ops(rest@));
                    assert(rest@ =~= p.subrange(start as int, p.len() as int));
                    assert(segment_ops(p, start as int, i as int) == byte_ops(rest@));
                }
            }
            return Err(e);
        },
    }
    assert(rec ==> transport.history() =~= h0 + segment_ops(p, 0, 0));
    Ok(())
}

/// Before byte `i` come the calls for the bytes before it, and then its write.
proof fn lemma_byte_ops_prefix(bs: Seq<u8>, i: int)
    requires
        0 <= i < bs.len(),
    ensures
        (byte_ops(bs.take(i)) + seq![Op::Write(seq![bs[i]])]).is_prefix_of(byte_ops(bs)),
{
    let x = bs[i];
    assert(bs =~= bs.take(i) + (seq![x] + bs.skip(i + 1)));
    lemma_byte_ops_add(bs.take(i), seq![x] + bs.skip(i + 1));
    lemma_byte_ops_add(seq![x], bs.skip(i + 1));
    assert(seq![x].drop_last() =~= Seq::<u8>::empty());
    assert(byte_ops(Seq::<u8>::empty()) =~= Seq::<Op>::empty());
    assert(byte_ops(seq![x]) =~= seq![Op::Write(seq![x]), Op::Sleep(BYTE_DELAY as nat)]);
    let p = byte_ops(bs.take(i)) + seq![Op::Write(seq![x])];
    assert(p =~= byte_ops(bs).subrange(0, p.len() as int));
}

/// Each byte written on its own, followed by the byte delay.
fn write_byte_by_byte<T: Transport>(transport: &mut T, bytes: &[u8]) -> (r: Result<(), TransportError>)
    ensures
        final(transport).records() == old(transport).records(),
        old(transport).inv() ==> final(transport).inv(),
        final(transport).never_fails() == old(transport).never_fails(),
        old(transport).never_fails() ==> r is Ok,
        old(transport).records() && r is Ok ==> final(transport).history() == old(transport).history() + byte_ops(bytes@),
        old(transport).records() && r is Err ==> failed_plan(old(transport).history(), final(transport).history(), byte_ops(bytes@)),
{
    let ghost h0 = transport.history();
    let ghost rec = transport.records();
    let ghost inv0 = transport.inv();
    let ghost nf = transport.never_fails();
    let mut i: usize = 0;
    assert(bytes@.take(0) =~= Seq::<u8>::empty());
    while i < bytes.len()
        invariant
            i <= bytes@.len(),
            h0 == old(transport).history(),
            rec == old(transport).records(),
            inv0 == old(transport).inv(),
            nf == old(transport).never_fails(),
            inv0 ==> transport.inv(),
            transport.never_fails() == nf,
            transport.records() == rec,
            rec ==> transport.history() == h0 + byte_ops(bytes@.take(i as int)),
        decreases bytes@.len() - i,
    {
        let one = vec![bytes[i]];
        let ghost before = transport.history();
        match transport.write_all(one.as_slice()) {
            Ok(()) => {},
            Err(e) => {
                proof {
                    if rec {
                        lemma_failed_write(before, one@);
                        let d = byte_ops(bytes@.take(i as int));
                        lemma_failed_after(h0, d, transport.history(), seq![Op::Write(one@)]);
                        lemma_byte_ops_prefix(bytes@, i as int);
                        assert(one@ =~= seq![bytes@[i as int]]);
                        lemma_failed_prefix(h0, transport.history(), d + seq![Op::Write(one@)], byte_ops(bytes@));
                    }
                }
                return Err(e);
            },
        }
        transport.sleep(BYTE_DELAY);
        proof {
            assert(bytes@.take(i + 1).drop_last() =~= bytes@.take(i as int));
            assert(one@ =~= seq![bytes@.take(i + 1).last()]);
            assert(rec ==> transport.history() =~= h0 + byte_ops(bytes@.take(i + 1)));
        }
        i = i + 1;
    }
    assert(bytes@.take(i as int) =~= bytes@);
    Ok(())
}

/// The bytes of one ASCII line as sent: CP437, then CR (and LF for the PC-1600 family).
pub open spec fn line_bytes(device: PocketDevice, line: Seq<char>) -> Seq<u8> {
    encode_lossy_seq(line) + seq![0x0Du8] + (if pc1600_family(device) {
        seq![0x0Au8]
    } else {
        Seq::empty()
    })
}

/// The calls for the lines, each followed by the tail pause on a paced link.
pub open spec fn lines_ops(device: PocketDevice, flow_control: bool, lines: Seq<Seq<char>>) -> Seq<Op>
    decreases lines.len(),
{
    if lines.len() == 0 {
        Seq::empty()
    } else {
        lines_ops(device, flow_control, lines.drop_last()) + seq![Op::Write(line_bytes(device, lines.last()))] + (
        if paced(device, flow_control) {
            seq![Op::Sleep(TAIL_PAUSE as nat)]
        } else {
            Seq::empty()
        })
    }
}

/// The calls a successful `send_ascii_lines` makes: the lines, the end-of-file byte
/// (`0x0D` for the PC-1500 family, `0x1A` otherwise), a drain and the tail pause.
pub open spec fn ascii_send_spec(device: PocketDevice, flow_control: bool, lines: Seq<Seq<char>>) -> Seq<Op> {
    lines_ops(device, flow_control, lines) + seq![
        Op::Write(seq![if pc1500_family(device) { 0x0Du8 } else { 0x1Au8 }]),
        Op::Drain(DRAIN_TIMEOUT as nat),
        Op::Sleep(TAIL_PAUSE as nat),
    ]
}

/// The calls for the first `j` lines come first in the calls for all of them.
proof fn lemma_lines_prefix(device: PocketDevice, flow_control: bool, ls: Seq<Seq<char>>, j: int)
    requires
        0 <= j <= ls.len(),
    ensures
        lines_ops(device, flow_control, ls.take(j)).is_prefix_of(lines_ops(device, flow_control, ls)),
    decreases ls.len(),
{
    let all = lines_ops(device, flow_control, ls);
    if j == ls.len() {
        assert(ls.take(j) =~= ls);
        assert(all =~= all.subrange(0, all.len() as int));
    } else {
        let dl = ls.drop_last();
        lemma_lines_prefix(device, flow_control, dl, j);
        assert(dl.take(j) =~= ls.take(j));
        let a = lines_ops(device, flow_control, ls.take(j));
        let b = lines_ops(device, flow_control, dl);
        assert(a =~= b.subrange(0, a.len() as int));
        assert(b =~= all.subrange(0, b.len() as int));
        assert(a =~= all.subrange(0, a.len() as int));
    }
}

/// Send a BASIC listing as discrete lines: each line CP437 bytes ended by CR (PC-1500
/// family) or CR LF (PC-1600 family), a pause after each on a paced link, then the
/// end-of-file byte.
pub fn send_ascii_lines<T: Transport>(
    transport: &mut T,
    device: PocketDevice,
    lines: &[String],
    flow_control: bool,
) -> (r: Result<(), TransportError>)
    ensures
        final(transport).records() == old(transport).records(),
        old(transport).inv() ==> final(transport).inv(),
        final(transport).never_fails() == old(transport).never_fails(),
        old(transport).never_fails() ==> r is Ok,
        old(transport).records() && r is Ok ==> final(transport).history() == old(transport).history() + ascii_send_spec(
            device,
            flow_control,
            lines@.map_values(|l: String| l@),
        ),
        old(transport).records() && r is Err ==> failed_plan(
            old(transport).history(),
            final(transport).history(),
            ascii_send_spec(device, flow_control, lines@.map_values(|l: String| l@)),
        ),
{
    let ghost h0 = transport.history();
    let ghost rec = transport.records();
    let ghost inv0 = transport.inv();
    let ghost nf = transport.never_fails();
    let ghost ls = lines@.map_values(|l: String| l@);
    let mut i: usize = 0;
    assert(ls.take(0) =~= Seq::<Seq<char>>::empty());
    while i < lines.len()
        invariant
            i <= lines@.len() == ls.len(),
            ls == lines@.map_values(|l: String| l@),
            h0 == old(transport).history(),
            rec == old(transport).records(),
            inv0 == old(transport).inv(),
            nf == old(transport).never_fails(),
            inv0 ==> transport.inv(),
            transport.never_fails() == nf,
            transport.records() == rec,
            rec ==> transport.history() == h0 + lines_ops(device, flow_control, ls.take(i as int)),
        decreases lines@.len() - i,
    {
        let mut bytes = crate::cp437::encode_lossy(lines[i].as_str());
        bytes.push(0x0D);
        if device.is_pc1600_family() {
            bytes.push(0x0A);
        }
        assert(bytes@ =~= line_bytes(device, ls[i as int]));
        let ghost before = transport.history();
        match transport.write_all(bytes.as_slice()) {
            Ok(()) => {},
            Err(e) => {
                proof {
                    if rec {
                        let d = lines_ops(device, flow_control, ls.take(i as int));
                        lemma_failed_write(before, bytes@);
                        lemma_failed_after(h0, d, transport.history(), seq![Op::Write(bytes@)]);
                        let q = d + seq![Op::Write(bytes@)];
                        let one = lines_ops(device, flow_control, ls.take(i + 1));
                        assert(ls.take(i + 1).drop_last() =~= ls.take(i as int));
                        assert(q =~= one.subrange(0, q.len() as int));
                        lemma_lines_prefix(device, flow_control, ls, i + 1);
                        let all = lines_ops(device, flow_control, ls);
                        let plan = ascii_send_spec(device, flow_control, ls);
                        assert(one =~= all.subrange(0, one.len() as int));
                        assert(q =~= plan.subrange(0, q.len() as int));
                        lemma_failed_prefix(h0, transport.history(), q, plan);
                    }
                }
                return Err(e);
            },
        }
        if device.is_paced_send(flow_control) {
            transport.sleep(TAIL_PAUSE);
        }
        proof {
            assert(ls.take(i + 1).drop_last() =~= ls.take(i as int));
            assert(rec ==> transport.history() =~= h0 + lines_ops(device, flow_control, ls.take(i + 1)));
        }
        i = i + 1;
    }
    assert(ls.take(i as int) =~= ls);
    let eof: u8 = if device.is_pc1500_family() {
        0x0D
    } else {
        0x1A
    };
    let e = vec![eof];
    assert(e@ =~= seq![if pc1500_family(device) { 0x0Du8 } else { 0x1Au8 }]);
    let ghost before = transport.history();
    match transport.write_all(e.as_slice()) {
        Ok(()) => {},
        Err(err) => {
            proof {
                if rec {
                    let d = lines_ops(device, flow_control, ls);
                    lemma_failed_write(before, e@);
                    lemma_failed_after(h0, d, transport.history(), seq![Op::Write(e@)]);
                    let q = d + seq![Op::Write(e@)];
                    let plan = ascii_send_spec(device, flow_control, ls);
                    assert(q =~= plan.subrange(0, q.len() as int));
                    lemma_failed_prefix(h0, transport.history(), q, plan);
                }
            }
            return Err(err);
        },
    }
    transport.drain(DRAIN_TIMEOUT);
    transport.sleep(TAIL_PAUSE);
    assert(rec ==> transport.history() =~= h0 + ascii_send_spec(device, flow_control, ls));
    Ok(())
}

} // verus!
