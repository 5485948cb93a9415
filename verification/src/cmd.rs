//! The command channel: eight-byte configuration commands, submitted to the
//! NIC through a pair of 32-bit registers.

use vstd::prelude::*;
use crate::bus::{Bus, BusOp, BusOpView};

verus! {

/// What a command asks for.
#[derive(Clone, Copy, Debug, PartialEq, Eq, Structural)]
pub enum Op {
    Nop,
    SetIP,
    SetMAC,
    WriteNCEntIP,
    WriteNCEntMAC,
    WriteNCEntPort,
    EnableNCEnt,
    DisableNCEnt,
}

impl Op {
    /// The byte that stands for the operation in a command record.
    pub open spec fn code_spec(self) -> u8 {
        match self {
            Op::Nop => 0,
            Op::SetIP => 1,
            Op::SetMAC => 2,
            Op::WriteNCEntIP => 3,
            Op::WriteNCEntMAC => 4,
            Op::WriteNCEntPort => 5,
            Op::EnableNCEnt => 6,
            Op::DisableNCEnt => 7,
        }
    }

    /// The byte that stands for the operation in a command record.
    pub fn code(&self) -> (r: u8)
        ensures
            r == self.code_spec(),
    {
        match self {
            Op::Nop => 0,
            Op::SetIP => 1,
            Op::SetMAC => 2,
            Op::WriteNCEntIP => 3,
            Op::WriteNCEntMAC => 4,
            Op::WriteNCEntPort => 5,
            Op::EnableNCEnt => 6,
            Op::DisableNCEnt => 7,
        }
    }
}

/// One command record: the operation, the port or slot it is about, and six
/// bytes of data. Addresses go into `data` last byte first.
#[derive(Clone, Copy, Debug)]
pub struct Cmd {
    pub op: Op,
    pub idx: u8,
    pub data: [u8; 6],
}

/// The 32-bit word whose bytes are, lowest first, `b0`, `b1`, `b2`, `b3`.
pub open spec fn le_word(b0: u8, b1: u8, b2: u8, b3: u8) -> u32 {
    (b0 as int + 256 * (b1 as int) + 65536 * (b2 as int) + 16777216 * (b3 as int)) as u32
}

/// Packs four bytes, lowest first, into a word.
pub fn pack_le(b0: u8, b1: u8, b2: u8, b3: u8) -> (r: u32)
    ensures
        r == le_word(b0, b1, b2, b3),
{
    assert(((b0 as u32) | (b1 as u32) << 8 | (b2 as u32) << 16 | (b3 as u32) << 24) == (b0 as u32)
        + 256 * (b1 as u32) + 65536 * (b2 as u32) + 16777216 * (b3 as u32)) by (bit_vector);
    (b0 as u32) | (b1 as u32) << 8 | (b2 as u32) << 16 | (b3 as u32) << 24
}

/// The three register stores that submit the command with the given
/// operation, index and six data bytes: clear the lower word; write the upper
/// word, the last four data bytes; write the lower word, which holds the
/// operation, the index and the first two data bytes, and latches the
/// command.
pub open spec fn cmd_stores(op: Op, idx: u8, data: Seq<u8>) -> Seq<BusOpView> {
    seq![
        BusOpView::CmdWrite { upper: false, word: 0 },
        BusOpView::CmdWrite { upper: true, word: le_word(data[2], data[3], data[4], data[5]) },
        BusOpView::CmdWrite { upper: false, word: le_word(op.code_spec(), idx, data[0], data[1]) },
    ]
}

/// An address last byte first, then zeros up to six bytes: how the command
/// registers take an IPv4 address.
pub open spec fn ip_data(ip: [u8; 4]) -> Seq<u8> {
    seq![ip[3], ip[2], ip[1], ip[0], 0u8, 0u8]
}

/// A hardware address last byte first: how the command registers take it.
pub open spec fn mac_data(mac: [u8; 6]) -> Seq<u8> {
    seq![mac[5], mac[4], mac[3], mac[2], mac[1], mac[0]]
}

/// A single byte, then zeros up to six bytes.
pub open spec fn byte_data(b: u8) -> Seq<u8> {
    seq![b, 0u8, 0u8, 0u8, 0u8, 0u8]
}

impl Cmd {
    /// The register stores that submit this command.
    pub open spec fn stores(self) -> Seq<BusOpView> {
        cmd_stores(self.op, self.idx, self.data@)
    }

    /// A command that carries an IPv4 address.
    pub fn with_ip(op: Op, idx: u8, ip: &[u8; 4]) -> (r: Cmd)
        ensures
            r.op == op,
            r.idx == idx,
            r.data@ == ip_data(*ip),
    {
        let r = Cmd { op, idx, data: [ip[3], ip[2], ip[1], ip[0], 0, 0] };
        assert(r.data@ =~= ip_data(*ip));
        r
    }

    /// A command that carries a hardware address.
    pub fn with_mac(op: Op, idx: u8, mac: &[u8; 6]) -> (r: Cmd)
        ensures
            r.op == op,
            r.idx == idx,
            r.data@ == mac_data(*mac),
    {
        let r = Cmd { op, idx, data: [mac[5], mac[4], mac[3], mac[2], mac[1], mac[0]] };
        assert(r.data@ =~= mac_data(*mac));
        r
    }

    /// A command that carries one byte, or, with 0, none.
    pub fn with_byte(op: Op, idx: u8, b: u8) -> (r: Cmd)
        ensures
            r.op == op,
            r.idx == idx,
            r.data@ == byte_data(b),
    {
        let r = Cmd { op, idx, data: [b, 0, 0, 0, 0, 0] };
        assert(r.data@ =~= byte_data(b));
        r
    }

    /// Submits the command.
    pub fn send(self, bus: &mut Bus)
        ensures
            final(bus).wf() == old(bus).wf(),
            final(bus).mem() == old(bus).mem(),
            final(bus).trace() == old(bus).trace() + self.stores(),
    {
        let lower = pack_le(self.op.code(), self.idx, self.data[0], self.data[1]);
        let upper = pack_le(self.data[2], self.data[3], self.data[4], self.data[5]);
        bus.emit(BusOp::CmdWrite { upper: false, word: 0 });
        bus.emit(BusOp::CmdWrite { upper: true, word: upper });
        bus.emit(BusOp::CmdWrite { upper: false, word: lower });
        proof {
            assert(bus.trace() =~= old(bus).trace() + self.stores());
        }
    }
}

} // verus!
