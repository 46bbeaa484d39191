//! The four `get`/`put` transport targets.
//!
//! A strict superset of [`crate::registry::Device`]: the tokenizer and header core only
//! need the CE-158 or PC-1600 flavor, but the serial layer also needs real hardware vs.
//! the pseudo-terminal emulator, since that changes baud rate, flow control and pacing
//! even when the header flavor is identical.

use vstd::prelude::*;

use crate::registry::Device;

verus! {

#[derive(Clone, Copy, Debug, PartialEq, Eq, Structural)]
pub enum PocketDevice {
    Pc1500,
    Pc1500a,
    Pc1600,
    Pc1600Emul,
}

/// `--flowcontrol` was asked for a device without handshake lines.
#[derive(Clone, Copy, Debug, PartialEq, Eq, Structural)]
pub struct FlowControlUnsupported;

impl FlowControlUnsupported {
    /// The error as a line of text.
    pub open spec fn message_text(self) -> Seq<char> {
        "--flowcontrol is only supported for --device pc1600 and pc1600emul"@
    }

    pub fn message(&self) -> (s: &'static str)
        ensures
            s@ == self.message_text(),
    {
        "--flowcontrol is only supported for --device pc1600 and pc1600emul"
    }
}

pub open spec fn pc1500_family(d: PocketDevice) -> bool {
    d == PocketDevice::Pc1500 || d == PocketDevice::Pc1500a
}

impl PocketDevice {
    pub fn is_pc1500_family(self) -> (r: bool)
        ensures
            r == pc1500_family(self),
    {
        match self {
            PocketDevice::Pc1500 | PocketDevice::Pc1500a => true,
            _ => false,
        }
    }

    pub fn is_pc1600_family(self) -> (r: bool)
        ensures
            r == (self == PocketDevice::Pc1600 || self == PocketDevice::Pc1600Emul),
    {
        match self {
            PocketDevice::Pc1600 | PocketDevice::Pc1600Emul => true,
            _ => false,
        }
    }

    /// True for the pseudo-terminal emulator link, which has no modem-control lines.
    pub fn is_emulator(self) -> (r: bool)
        ensures
            r == (self == PocketDevice::Pc1600Emul),
    {
        match self {
            PocketDevice::Pc1600Emul => true,
            _ => false,
        }
    }

    /// `--flowcontrol` can be requested: the PC-1600 family only (the CE-158 of the
    /// PC-1500 family has no handshake lines).
    pub fn supports_flow_control(self) -> (r: bool)
        ensures
            r == !pc1500_family(self),
    {
        self.is_pc1600_family()
    }

    /// Reject `--flowcontrol` for devices without handshake lines.
    pub fn check_flow_control(self, flow_control: bool) -> (r: Result<(), FlowControlUnsupported>)
        ensures
            r is Err <==> (flow_control && pc1500_family(self)),
    {
        if flow_control && !self.supports_flow_control() {
            return Err(FlowControlUnsupported);
        }
        Ok(())
    }

    /// The port is opened with RTS/CTS handshaking: only when asked for, and never for
    /// the PC-1500 family.
    pub fn uses_hardware_flow_control(self, flow_control: bool) -> (r: bool)
        ensures
            r == (flow_control && !pc1500_family(self)),
    {
        flow_control && self.supports_flow_control()
    }

    /// The sender must pace bytes itself: everywhere but on a real PC-1600 whose
    /// throttling is handed to RTS/CTS.
    pub fn is_paced_send(self, flow_control: bool) -> (r: bool)
        ensures
            r == !(self == PocketDevice::Pc1600 && flow_control),
    {
        !(self == PocketDevice::Pc1600 && flow_control)
    }

    pub fn baud_rate(self) -> (r: u32)
        ensures
            r == if pc1500_family(self) { 19200u32 } else { 9600u32 },
    {
        if self.is_pc1500_family() {
            19200
        } else {
            9600
        }
    }

    /// Idle timeout of `get`'s end-of-transfer watchdog, used when no header gives the
    /// transfer length.
    pub fn idle_timeout_ms(self) -> (r: u64)
        ensures
            r == if pc1500_family(self) { 5000u64 } else { 500u64 },
    {
        if self.is_pc1500_family() {
            5000
        } else {
            500
        }
    }

    /// The header / keyword-table flavor.
    pub fn to_registry_device(self) -> (d: Device)
        ensures
            d == if pc1500_family(self) { Device::Pc1500 } else { Device::Pc1600 },
    {
        if self.is_pc1500_family() {
            Device::Pc1500
        } else {
            Device::Pc1600
        }
    }

    /// Hex digits of a reported address: 4 on the PC-1500 family (16-bit addresses), 6
    /// on the PC-1600 (24-bit).
    pub fn addr_hex_width(self) -> (r: usize)
        ensures
            r == if pc1500_family(self) { 4usize } else { 6usize },
    {
        if self.is_pc1500_family() {
            4
        } else {
            6
        }
    }

    /// The command line's spelling of the device.
    pub fn as_str(self) -> (s: &'static str)
        ensures
            s@ == device_name(self),
    {
        proof {
            reveal_strlit("pc1500");
            reveal_strlit("pc1500a");
            reveal_strlit("pc1600");
            reveal_strlit("pc1600emul");
        }
        match self {
            PocketDevice::Pc1500 => "pc1500",
            PocketDevice::Pc1500a => "pc1500a",
            PocketDevice::Pc1600 => "pc1600",
            PocketDevice::Pc1600Emul => "pc1600emul",
        }
    }
}

pub open spec fn device_name(d: PocketDevice) -> Seq<char> {
    match d {
        PocketDevice::Pc1500 => seq!['p', 'c', '1', '5', '0', '0'],
        PocketDevice::Pc1500a => seq!['p', 'c', '1', '5', '0', '0', 'a'],
        PocketDevice::Pc1600 => seq!['p', 'c', '1', '6', '0', '0'],
        PocketDevice::Pc1600Emul => seq!['p', 'c', '1', '6', '0', '0', 'e', 'm', 'u', 'l'],
    }
}

} // verus!
