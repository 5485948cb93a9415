//! The buffer ring: eight cells of 2048 bytes through which frames pass
//! between the NIC and the firmware, each with a state byte that says whose
//! turn it is, and the layout of the frames in them.

use vstd::prelude::*;
use vstd::string::StringSliceAdditionalSpecFns;
use crate::bus::{splice, Bus, BusOp, BusOpView, BUF_CELL_SIZE, BUF_COUNT};
use crate::util::{hex_byte, hprint, hprint_char, hprint_hex_byte};

verus! {

/// Time to live of the packets that the firmware originates.
pub const IP_OUTGOING_TTL: u8 = 64;

/// Offset of the destination hardware address in a cell.
pub const OFF_DEST: usize = 0;

/// Offset of the source hardware address.
pub const OFF_SRC: usize = 6;

/// Offset of the 802.1Q tag, whose last byte is the port.
pub const OFF_VLAN: usize = 12;

/// Offset of the port.
pub const OFF_PORT: usize = 15;

/// Offset of the EtherType.
pub const OFF_ETH_TYPE: usize = 16;

/// Offset of the layer-3 payload.
pub const OFF_DATA: usize = 18;

/// Offset of the frame length, Ethernet header included.
pub const OFF_LEN: usize = 2044;

/// Offset of the state byte.
pub const OFF_STATE: usize = 2047;

/// Length of the Ethernet header with its tag.
pub const ETH_HEADER_LEN: u16 = 18;

/// Whose turn it is in a cell.
#[derive(Clone, Copy, Debug, PartialEq, Eq, Structural)]
pub enum BufState {
    /// Nothing in the cell.
    Vacant,
    /// A frame from the NIC for the firmware.
    Incoming,
    /// A frame from the firmware for the NIC to send.
    Outgoing,
    /// A frame whose destination the hardware forwarding table lacks.
    ForwardMiss,
    /// A frame whose next hop the hardware neighbour table lacks.
    ARPMiss,
}

/// The state that a state byte stands for, if any.
pub open spec fn state_of(b: u8) -> Option<BufState> {
    if b == 0 {
        Some(BufState::Vacant)
    } else if b == 1 {
        Some(BufState::Incoming)
    } else if b == 2 {
        Some(BufState::Outgoing)
    } else if b == 3 {
        Some(BufState::ForwardMiss)
    } else if b == 4 {
        Some(BufState::ARPMiss)
    } else {
        None
    }
}

impl BufState {
    /// The state byte.
    pub open spec fn code_spec(self) -> u8 {
        match self {
            BufState::Vacant => 0,
            BufState::Incoming => 1,
            BufState::Outgoing => 2,
            BufState::ForwardMiss => 3,
            BufState::ARPMiss => 4,
        }
    }

    /// The state's name as the console shows it.
    pub open spec fn label(self) -> &'static str {
        match self {
            BufState::Vacant => "Vacant\n\r",
            BufState::Incoming => "Incoming\n\r",
            BufState::Outgoing => "Outgoing\n\r",
            BufState::ForwardMiss => "ForwardMiss\n\r",
            BufState::ARPMiss => "ARPMiss\n\r",
        }
    }

    /// The state byte.
    pub fn code(&self) -> (r: u8)
        ensures
            r == self.code_spec(),
            state_of(r) == Some(*self),
    {
        match self {
            BufState::Vacant => 0,
            BufState::Incoming => 1,
            BufState::Outgoing => 2,
            BufState::ForwardMiss => 3,
            BufState::ARPMiss => 4,
        }
    }

    /// The state that a state byte stands for.
    pub fn from_byte(b: u8) -> (r: Option<BufState>)
        ensures
            r == state_of(b),
    {
        if b == 0 {
            Some(BufState::Vacant)
        } else if b == 1 {
            Some(BufState::Incoming)
        } else if b == 2 {
            Some(BufState::Outgoing)
        } else if b == 3 {
            Some(BufState::ForwardMiss)
        } else if b == 4 {
            Some(BufState::ARPMiss)
        } else {
            None
        }
    }

    /// Prints the state's name and a line end.
    pub fn hprint(&self, out: &mut Vec<u8>)
        ensures
            final(out)@ == old(out)@ + self.label().spec_bytes(),
    {
        match *self {
            Self::Vacant => hprint("Vacant\n\r", out),
            Self::Incoming => hprint("Incoming\n\r", out),
            Self::Outgoing => hprint("Outgoing\n\r", out),
            Self::ForwardMiss => hprint("ForwardMiss\n\r", out),
            Self::ARPMiss => hprint("ARPMiss\n\r", out),
        }
    }
}

/// The 16-bit number whose low byte is `lo` and whose high byte is `hi`.
pub open spec fn le16(lo: u8, hi: u8) -> u16 {
    (lo as int + 256 * (hi as int)) as u16
}

/// Joins two bytes, low byte first.
pub fn join16(lo: u8, hi: u8) -> (r: u16)
    ensures
        r == le16(lo, hi),
{
    assert(((lo as u16) | (hi as u16) << 8) == (lo as u16) + 256 * (hi as u16)) by (bit_vector);
    (lo as u16) | (hi as u16) << 8
}

/// The low and the high byte of a 16-bit number.
pub fn split16(v: u16) -> (r: (u8, u8))
    ensures
        r.0 == v % 256,
        r.1 == v / 256,
        le16(r.0, r.1) == v,
{
    assert((v & 0xFF) == v % 256 && (v >> 8) == v / 256 && (v >> 8) < 256) by (bit_vector);
    ((v & 0xFF) as u8, (v >> 8) as u8)
}

/// The protocol of a frame, as the EtherType field names it. The numbers are
/// the field read low byte first.
#[derive(Clone, Copy, Debug, PartialEq, Eq, Structural)]
pub enum EthType {
    ARP,
    IPv4,
}

/// The protocol that an EtherType field, read low byte first, stands for.
pub open spec fn eth_type_of(v: u16) -> Option<EthType> {
    if v == 0x0608 {
        Some(EthType::ARP)
    } else if v == 0x0008 {
        Some(EthType::IPv4)
    } else {
        None
    }
}

impl EthType {
    /// The EtherType field, read low byte first.
    pub open spec fn code_spec(self) -> u16 {
        match self {
            EthType::ARP => 0x0608,
            EthType::IPv4 => 0x0008,
        }
    }

    /// The EtherType field, read low byte first.
    pub fn code(&self) -> (r: u16)
        ensures
            r == self.code_spec(),
            eth_type_of(r) == Some(*self),
    {
        match self {
            EthType::ARP => 0x0608,
            EthType::IPv4 => 0x0008,
        }
    }

    /// The protocol that an EtherType field, read low byte first, stands for.
    pub fn from_code(v: u16) -> (r: Option<EthType>)
        ensures
            r == eth_type_of(v),
    {
        if v == 0x0608 {
            Some(EthType::ARP)
        } else if v == 0x0008 {
            Some(EthType::IPv4)
        } else {
            None
        }
    }
}

/// A cursor over the ring: the number of the cell it stands on. Cell 0 is
/// the send cell; the receive cursor goes round the cells 1 to 7.
#[derive(Clone, Copy, Debug)]
pub struct BufHandle {
    pub ptr: u8,
}

/// What a cell holds, by its EtherType, with the offsets in the ring image
/// at which the parts start: the ARP packet; the IPv4 header and its payload.
#[derive(Clone, Copy, Debug, PartialEq, Eq, Structural)]
pub enum ParsedBufHandle {
    ARP(usize),
    IPv4(IPv4Handle, usize),
    Unknown,
}

/// The cell after `ptr` for a cursor: the send cursor stays on cell 0, the
/// receive cursor goes from 7 back to 1.
pub open spec fn next_cell(ptr: u8) -> u8 {
    if ptr == 0 {
        0
    } else if ptr == 7 {
        1
    } else {
        (ptr + 1) as u8
    }
}

/// The image with the destination hardware address of cell `c` set.
pub open spec fn with_dest(mem: Seq<u8>, c: u8, mac: [u8; 6]) -> Seq<u8> {
    splice(mem, 2048 * c, mac@)
}

/// The image with the source hardware address of cell `c` set.
pub open spec fn with_src(mem: Seq<u8>, c: u8, mac: [u8; 6]) -> Seq<u8> {
    splice(mem, 2048 * c + 6, mac@)
}

/// The image with the tag of cell `c` set for `port`.
pub open spec fn with_port(mem: Seq<u8>, c: u8, port: u8) -> Seq<u8> {
    splice(mem, 2048 * c + 12, seq![0x81u8, 0u8, 0u8, port])
}

/// The image with the EtherType of cell `c` set.
pub open spec fn with_eth_type(mem: Seq<u8>, c: u8, t: EthType) -> Seq<u8> {
    splice(mem, 2048 * c + 16, seq![(t.code_spec() % 256) as u8, (t.code_spec() / 256) as u8])
}

/// The image with the frame length of cell `c` set for a payload of `len`
/// bytes.
pub open spec fn with_payload_len(mem: Seq<u8>, c: u8, len: u16) -> Seq<u8> {
    splice(mem, 2048 * c + 2044, seq![((len + 18) % 256) as u8, ((len + 18) / 256) as u8])
}

/// The image with the state byte of cell `c` set.
pub open spec fn with_state(mem: Seq<u8>, c: u8, state: BufState) -> Seq<u8> {
    mem.update(2048 * c + 2047, state.code_spec())
}

/// The image with `data` written as the layer-3 payload of cell `c`, from
/// `skip` bytes into the payload on.
pub open spec fn with_data(mem: Seq<u8>, c: u8, skip: int, data: Seq<u8>) -> Seq<u8> {
    splice(mem, 2048 * c + 18 + skip, data)
}

/// The cell `c` of an image.
pub open spec fn cell_of(mem: Seq<u8>, c: u8) -> Seq<u8> {
    mem.subrange(2048 * c, 2048 * c + 2048)
}

/// The request that hands cell `c` of the image to the NIC.
pub open spec fn transmit_of(mem: Seq<u8>, c: u8) -> BusOpView {
    BusOpView::Transmit { cell: c, image: cell_of(mem, c) }
}

/// The hardware address whose six bytes are `s`.
pub open spec fn arr6(s: Seq<u8>) -> [u8; 6] {
    choose|a: [u8; 6]| a@ == s
}

/// The address whose four bytes are `s`.
pub open spec fn arr4(s: Seq<u8>) -> [u8; 4] {
    choose|a: [u8; 4]| a@ == s
}

/// The six bytes of `mem` from `off` on.
pub fn read6(mem: &[u8], off: usize) -> (r: [u8; 6])
    requires
        off + 6 <= mem@.len(),
    ensures
        r@ == mem@.subrange(off as int, off + 6),
        r == arr6(mem@.subrange(off as int, off + 6)),
{
    let r = [mem[off], mem[off + 1], mem[off + 2], mem[off + 3], mem[off + 4], mem[off + 5]];
    assert(r@ =~= mem@.subrange(off as int, off + 6));
    assert(arr6(r@) =~= r);
    r
}

/// The four bytes of `mem` from `off` on.
pub fn read4(mem: &[u8], off: usize) -> (r: [u8; 4])
    requires
        off + 4 <= mem@.len(),
    ensures
        r@ == mem@.subrange(off as int, off + 4),
        r == arr4(mem@.subrange(off as int, off + 4)),
{
    let r = [mem[off], mem[off + 1], mem[off + 2], mem[off + 3]];
    assert(r@ =~= mem@.subrange(off as int, off + 4));
    assert(arr4(r@) =~= r);
    r
}

impl BufHandle {
    /// The cursor stands on a cell of the ring.
    pub open spec fn wf(&self) -> bool {
        self.ptr < BUF_COUNT
    }

    /// Offset of the cursor's cell in the ring image.
    pub open spec fn base(&self) -> int {
        2048 * self.ptr
    }

    fn base_off(&self) -> (r: usize)
        requires
            self.wf(),
        ensures
            r == self.base(),
            r + 2048 <= 16384,
    {
        (self.ptr as usize) * BUF_CELL_SIZE
    }

    /// The state of the cell, where its state byte names one.
    pub fn probe(&self, bus: &Bus) -> (r: Option<BufState>)
        requires
            self.wf(),
            bus.wf(),
        ensures
            r == state_of(bus.mem()[self.base() + 2047]),
    {
        BufState::from_byte(bus.read(self.base_off() + OFF_STATE))
    }

    /// Gives the cell back to the NIC, vacant, and moves on.
    pub fn drop(&mut self, bus: &mut Bus)
        requires
            old(self).wf(),
            old(bus).wf(),
        ensures
            final(self).wf(),
            final(bus).wf(),
            final(self).ptr == next_cell(old(self).ptr),
            final(bus).mem() == old(bus).mem().update(old(self).base() + 2047, 0u8),
            state_of(final(bus).mem()[old(self).base() + 2047]) == Some(BufState::Vacant),
            final(bus).trace() == old(bus).trace().push(
                BusOpView::Release { cell: old(self).ptr },
            ),
    {
        self.write_state(bus, BufState::Vacant);
        bus.emit(BusOp::Release { cell: self.ptr });
        self.step();
    }

    /// Hands the cell to the NIC for sending and moves on. The request
    /// carries the cell as it is now, marked outgoing; the NIC marks the cell
    /// vacant when the frame has left.
    pub fn send(&mut self, bus: &mut Bus)
        requires
            old(self).wf(),
            old(bus).wf(),
        ensures
            final(self).wf(),
            final(bus).wf(),
            final(self).ptr == next_cell(old(self).ptr),
            final(bus).mem() == old(bus).mem().update(old(self).base() + 2047, 2u8),
            state_of(final(bus).mem()[old(self).base() + 2047]) == Some(BufState::Outgoing),
            final(bus).trace() == old(bus).trace().push(
                BusOpView::Transmit {
                    cell: old(self).ptr,
                    image: final(bus).cell(old(self).ptr as int),
                },
            ),
    {
        self.write_state(bus, BufState::Outgoing);
        let base = self.base_off();
        let mut image: Vec<u8> = Vec::new();
        let mut i: usize = 0;
        while i < BUF_CELL_SIZE
            invariant
                0 <= i <= 2048,
                base + 2048 <= 16384,
                bus.wf(),
                image@.len() == i,
                forall|j: int| 0 <= j < i ==> image@[j] == bus.mem()[base + j],
            decreases 2048 - i,
        {
            image.push(bus.read(base + i));
            i = i + 1;
        }
        proof {
            assert(image@ =~= bus.cell(self.ptr as int));
        }
        bus.emit(BusOp::Transmit { cell: self.ptr, image });
        self.step();
    }

    /// The destination hardware address of the frame.
    pub fn dest(&self, bus: &Bus) -> (r: [u8; 6])
        requires
            self.wf(),
            bus.wf(),
        ensures
            r@ == bus.mem().subrange(self.base(), self.base() + 6),
            r == arr6(bus.mem().subrange(self.base(), self.base() + 6)),
    {
        read6(bus.bytes().as_slice(), self.base_off() + OFF_DEST)
    }

    /// The source hardware address of the frame.
    pub fn src(&self, bus: &Bus) -> (r: [u8; 6])
        requires
            self.wf(),
            bus.wf(),
        ensures
            r@ == bus.mem().subrange(self.base() + 6, self.base() + 12),
            r == arr6(bus.mem().subrange(self.base() + 6, self.base() + 12)),
    {
        read6(bus.bytes().as_slice(), self.base_off() + OFF_SRC)
    }

    /// The port on which the frame came in or goes out.
    pub fn port(&self, bus: &Bus) -> (r: u8)
        requires
            self.wf(),
            bus.wf(),
        ensures
            r == bus.mem()[self.base() + 15],
    {
        bus.read(self.base_off() + OFF_PORT)
    }

    /// Sets the destination hardware address.
    pub fn write_dest(&self, bus: &mut Bus, mac: [u8; 6])
        requires
            self.wf(),
            old(bus).wf(),
        ensures
            final(bus).wf(),
            final(bus).mem() == splice(old(bus).mem(), self.base(), mac@),
            final(bus).trace() == old(bus).trace(),
    {
        bus.store(self.base_off() + OFF_DEST, mac.as_slice());
    }

    /// Sets the source hardware address.
    pub fn write_src(&self, bus: &mut Bus, mac: [u8; 6])
        requires
            self.wf(),
            old(bus).wf(),
        ensures
            final(bus).wf(),
            final(bus).mem() == splice(old(bus).mem(), self.base() + 6, mac@),
            final(bus).trace() == old(bus).trace(),
    {
        bus.store(self.base_off() + OFF_SRC, mac.as_slice());
    }

    /// Sets the 802.1Q tag: the tag protocol byte, two zero bytes, and the
    /// port.
    pub fn write_port(&self, bus: &mut Bus, port: u8)
        requires
            self.wf(),
            old(bus).wf(),
        ensures
            final(bus).wf(),
            final(bus).mem() == splice(
                old(bus).mem(),
                self.base() + 12,
                seq![0x81u8, 0u8, 0u8, port],
            ),
            final(bus).trace() == old(bus).trace(),
    {
        let tag: [u8; 4] = [0x81, 0, 0, port];
        assert(tag@ =~= seq![0x81u8, 0u8, 0u8, port]);
        bus.store(self.base_off() + OFF_VLAN, tag.as_slice());
    }

    fn write_state(&mut self, bus: &mut Bus, state: BufState)
        requires
            old(self).wf(),
            old(bus).wf(),
        ensures
            *final(self) == *old(self),
            final(bus).wf(),
            final(bus).mem() == old(bus).mem().update(old(self).base() + 2047, state.code_spec()),
            final(bus).trace() == old(bus).trace(),
    {
        bus.write(self.base_off() + OFF_STATE, state.code());
    }

    /// Moves the cursor to its next cell.
    pub fn step(&mut self)
        requires
            old(self).wf(),
        ensures
            final(self).wf(),
            final(self).ptr == next_cell(old(self).ptr),
    {
        if self.ptr == 0 {
            return ;
        }
        self.ptr = if self.ptr == BUF_COUNT - 1 {
            1
        } else {
            self.ptr + 1
        }
    }

    /// Tells by the EtherType what the cell holds and where its parts start.
    pub fn parse(&self, bus: &Bus) -> (r: ParsedBufHandle)
        requires
            self.wf(),
            bus.wf(),
        ensures
            r == (match eth_type_of(
                le16(bus.mem()[self.base() + 16], bus.mem()[self.base() + 17]),
            ) {
                Some(EthType::ARP) => ParsedBufHandle::ARP((self.base() + 18) as usize),
                Some(EthType::IPv4) => ParsedBufHandle::IPv4(
                    IPv4Handle { ptr: (self.base() + 18) as usize },
                    (self.base() + 38) as usize,
                ),
                None => ParsedBufHandle::Unknown,
            }),
    {
        let base = self.base_off();
        match self.eth_type(bus) {
            Some(EthType::ARP) => ParsedBufHandle::ARP(base + OFF_DATA),
            Some(EthType::IPv4) => ParsedBufHandle::IPv4(
                IPv4Handle { ptr: base + OFF_DATA },
                base + OFF_DATA + 20,
            ),
            None => ParsedBufHandle::Unknown,
        }
    }

    /// Offset in the ring image at which the layer-3 payload of the cell
    /// starts.
    pub fn data(&mut self) -> (r: usize)
        requires
            old(self).wf(),
        ensures
            *final(self) == *old(self),
            r == old(self).base() + 18,
    {
        self.base_off() + OFF_DATA
    }

    /// The protocol that the EtherType field names, if it is one that the
    /// firmware knows.
    pub fn eth_type(&self, bus: &Bus) -> (r: Option<EthType>)
        requires
            self.wf(),
            bus.wf(),
        ensures
            r == eth_type_of(le16(bus.mem()[self.base() + 16], bus.mem()[self.base() + 17])),
    {
        let base = self.base_off();
        EthType::from_code(join16(bus.read(base + OFF_ETH_TYPE), bus.read(base + OFF_ETH_TYPE + 1)))
    }

    /// Sets the EtherType field.
    pub fn write_eth_type(&self, bus: &mut Bus, t: EthType)
        requires
            self.wf(),
            old(bus).wf(),
        ensures
            final(bus).wf(),
            final(bus).mem() == splice(
                old(bus).mem(),
                self.base() + 16,
                seq![(t.code_spec() % 256) as u8, (t.code_spec() / 256) as u8],
            ),
            final(bus).trace() == old(bus).trace(),
    {
        let (lo, hi) = split16(t.code());
        let field: [u8; 2] = [lo, hi];
        assert(field@ =~= seq![(t.code_spec() % 256) as u8, (t.code_spec() / 256) as u8]);
        bus.store(self.base_off() + OFF_ETH_TYPE, field.as_slice());
    }

    /// The length of the frame as the cell records it, Ethernet header
    /// included.
    pub fn frame_len(&self, bus: &Bus) -> (r: u16)
        requires
            self.wf(),
            bus.wf(),
        ensures
            r == le16(bus.mem()[self.base() + 2044], bus.mem()[self.base() + 2045]),
    {
        let base = self.base_off();
        join16(bus.read(base + OFF_LEN), bus.read(base + OFF_LEN + 1))
    }

    /// The length of the layer-3 payload: the frame length less the Ethernet
    /// header, and 0 for a frame shorter than that.
    pub fn payload_len(&self, bus: &Bus) -> (r: u16)
        requires
            self.wf(),
            bus.wf(),
        ensures
            r == (if self.spec_frame_len(bus) >= 18 {
                (self.spec_frame_len(bus) - 18) as u16
            } else {
                0u16
            }),
    {
        let len = self.frame_len(bus);
        if len >= ETH_HEADER_LEN {
            len - ETH_HEADER_LEN
        } else {
            0
        }
    }

    /// The frame length that the cell records.
    pub open spec fn spec_frame_len(&self, bus: &Bus) -> u16 {
        le16(bus.mem()[self.base() + 2044], bus.mem()[self.base() + 2045])
    }

    /// Records the frame length for a layer-3 payload of `len` bytes: `len`
    /// and the Ethernet header.
    pub fn write_payload_len(&mut self, bus: &mut Bus, len: u16)
        requires
            old(self).wf(),
            old(bus).wf(),
            len + 18 <= u16::MAX,
        ensures
            *final(self) == *old(self),
            final(bus).wf(),
            final(bus).mem() == splice(
                old(bus).mem(),
                old(self).base() + 2044,
                seq![((len + 18) % 256) as u8, ((len + 18) / 256) as u8],
            ),
            final(bus).trace() == old(bus).trace(),
    {
        let (lo, hi) = split16(len + ETH_HEADER_LEN);
        let field: [u8; 2] = [lo, hi];
        assert(field@ =~= seq![((len + 18) % 256) as u8, ((len + 18) / 256) as u8]);
        bus.store(self.base_off() + OFF_LEN, field.as_slice());
    }

    /// Prints the frame in the cell: each byte as two hexadecimal digits and
    /// a space, sixteen to a line. A recorded length beyond the cell is cut
    /// to the cell.
    pub fn dump(&self, bus: &Bus, out: &mut Vec<u8>)
        requires
            self.wf(),
            bus.wf(),
        ensures
            final(out)@ == old(out)@ + dump_text(
                bus.cell(self.ptr as int),
                dump_len(self.spec_frame_len(bus)),
            ) + dump_tail(dump_len(self.spec_frame_len(bus))),
    {
        let base = self.base_off();
        let recorded = self.frame_len(bus) as usize;
        let len: usize = if recorded > BUF_CELL_SIZE {
            BUF_CELL_SIZE
        } else {
            recorded
        };
        let ghost cell = bus.cell(self.ptr as int);
        let mut i: usize = 0;
        proof {
            assert(old(out)@ + dump_text(cell, 0) =~= old(out)@);
        }
        while i < len
            invariant
                0 <= i <= len <= 2048,
                base == self.base(),
                base + 2048 <= 16384,
                bus.wf(),
                self.wf(),
                cell == bus.cell(self.ptr as int),
                out@ == old(out)@ + dump_text(cell, i as int),
            decreases len - i,
        {
            let b = bus.read(base + i);
            assert(b == cell[i as int]);
            hprint_hex_byte(b, out);
            hprint_char(32, out);
            if i % 16 == 15 {
                hprint_char(10, out);
                hprint_char(13, out);
            }
            proof {
                assert(out@ =~= old(out)@ + dump_text(cell, i + 1));
            }
            i = i + 1;
        }
        if len % 16 != 0 {
            hprint_char(10, out);
            hprint_char(13, out);
        }
        proof {
            assert(out@ =~= old(out)@ + dump_text(cell, len as int) + dump_tail(len as int));
        }
    }
}

/// How many bytes of a cell a dump shows for a recorded frame length.
pub open spec fn dump_len(recorded: u16) -> int {
    if recorded > 2048 {
        2048
    } else {
        recorded as int
    }
}

/// The dump of the first `n` bytes of a cell: each byte as two hexadecimal
/// digits and a space, and a line end after every sixteenth.
pub open spec fn dump_text(cell: Seq<u8>, n: int) -> Seq<u8>
    decreases n,
{
    if n <= 0 {
        Seq::<u8>::empty()
    } else {
        dump_text(cell, n - 1) + hex_byte(cell[n - 1]) + seq![32u8] + (if (n - 1) % 16 == 15 {
            seq![10u8, 13u8]
        } else {
            Seq::<u8>::empty()
        })
    }
}

/// The line end that closes a dump whose last line is not full.
pub open spec fn dump_tail(n: int) -> Seq<u8> {
    if n % 16 != 0 {
        seq![10u8, 13u8]
    } else {
        Seq::<u8>::empty()
    }
}

/// The receive cursor at its start: cell 1.
pub fn rst_buf() -> (r: BufHandle)
    ensures
        r.ptr == 1,
        r.wf(),
{
    BufHandle { ptr: 1 }
}

/// The send cursor: cell 0.
pub fn snd_buf() -> (r: BufHandle)
    ensures
        r.ptr == 0,
        r.wf(),
{
    BufHandle { ptr: 0 }
}

/// The place of an IPv4 header in a byte buffer: the offset of its first
/// byte.
#[derive(Clone, Copy, Debug, PartialEq, Eq, Structural)]
pub struct IPv4Handle {
    pub ptr: usize,
}

/// The protocol of an IPv4 packet, as its header names it.
#[derive(Clone, Copy, Debug, PartialEq, Eq, Structural)]
pub enum IPProto {
    ICMP,
    IGMP,
    TCP,
    UDP,
}

/// The protocol that a protocol byte stands for, if the firmware knows it.
pub open spec fn proto_of(b: u8) -> Option<IPProto> {
    if b == 0x01 {
        Some(IPProto::ICMP)
    } else if b == 0x02 {
        Some(IPProto::IGMP)
    } else if b == 0x06 {
        Some(IPProto::TCP)
    } else if b == 0x11 {
        Some(IPProto::UDP)
    } else {
        None
    }
}

impl IPProto {
    /// The protocol byte.
    pub open spec fn code_spec(self) -> u8 {
        match self {
            IPProto::ICMP => 0x01,
            IPProto::IGMP => 0x02,
            IPProto::TCP => 0x06,
            IPProto::UDP => 0x11,
        }
    }

    /// The protocol byte.
    pub fn code(&self) -> (r: u8)
        ensures
            r == self.code_spec(),
            proto_of(r) == Some(*self),
    {
        match self {
            IPProto::ICMP => 0x01,
            IPProto::IGMP => 0x02,
            IPProto::TCP => 0x06,
            IPProto::UDP => 0x11,
        }
    }

    /// The protocol that a protocol byte stands for.
    pub fn from_byte(b: u8) -> (r: Option<IPProto>)
        ensures
            r == proto_of(b),
    {
        if b == 0x01 {
            Some(IPProto::ICMP)
        } else if b == 0x02 {
            Some(IPProto::IGMP)
        } else if b == 0x06 {
            Some(IPProto::TCP)
        } else if b == 0x11 {
            Some(IPProto::UDP)
        } else {
            None
        }
    }
}

/// The ones'-complement sum of a sum of 16-bit words: what lies above the
/// low 16 bits is added back into them until nothing lies above.
pub open spec fn ones_fold(s: nat) -> nat
    decreases s,
{
    if s < 65536 {
        s
    } else {
        ones_fold(s % 65536 + s / 65536)
    }
}

/// Folds a sum of 16-bit words into 16 bits.
pub fn fold16(sum: u32) -> (r: u16)
    ensures
        r == ones_fold(sum as nat),
{
    let mut s: u32 = sum;
    while (s >> 16) > 0
        invariant
            ones_fold(s as nat) == ones_fold(sum as nat),
        decreases s,
    {
        assert((s >> 16) == s / 65536 && (s & 0xFFFF) == s % 65536) by (bit_vector);
        s = (s & 0xFFFF) + (s >> 16);
    }
    assert((s >> 16) == s / 65536) by (bit_vector);
    s as u16
}

/// The `i`-th 16-bit word of the header at `ptr`, low byte first.
pub open spec fn half_word(mem: Seq<u8>, ptr: int, i: int) -> nat {
    le16(mem[ptr + 2 * i], mem[ptr + 2 * i + 1]) as nat
}

/// The sum of the first `n` 16-bit words of the header at `ptr`, the
/// checksum field, word 5, left out.
pub open spec fn header_sum(mem: Seq<u8>, ptr: int, n: int) -> nat
    decreases n,
{
    if n <= 0 {
        0
    } else if n - 1 == 5 {
        header_sum(mem, ptr, n - 1)
    } else {
        header_sum(mem, ptr, n - 1) + half_word(mem, ptr, n - 1)
    }
}

/// The checksum of the IPv4 header at `ptr`: the ones'-complement sum of
/// its ten 16-bit words without the checksum field.
pub open spec fn ip_checksum(mem: Seq<u8>, ptr: int) -> u16 {
    ones_fold(header_sum(mem, ptr, 10)) as u16
}

/// The two bytes of a 16-bit number, low byte first.
pub open spec fn le_bytes(v: u16) -> Seq<u8> {
    seq![(v % 256) as u8, (v / 256) as u8]
}

/// The two bytes of a 16-bit number, high byte first.
pub open spec fn be_bytes(v: u16) -> Seq<u8> {
    seq![(v / 256) as u8, (v % 256) as u8]
}

/// `mem` with the checksum field of the header at `ptr` filled in.
pub open spec fn with_checksum(mem: Seq<u8>, ptr: int) -> Seq<u8> {
    splice(mem, ptr + 10, le_bytes(ip_checksum(mem, ptr)))
}

/// `mem` with the fields of an outgoing header written at `ptr`, all but
/// the checksum: version and header length, total length, time to live,
/// protocol, source and destination.
pub open spec fn stamped(
    mem: Seq<u8>,
    ptr: int,
    proto: IPProto,
    payload_len: u16,
    src: [u8; 4],
    dest: [u8; 4],
) -> Seq<u8> {
    splice(
        splice(
            splice(
                splice(mem.update(ptr, 0x45u8), ptr + 2, be_bytes((payload_len + 20) as u16)),
                ptr + 8,
                seq![IP_OUTGOING_TTL, proto.code_spec()],
            ),
            ptr + 12,
            src@,
        ),
        ptr + 16,
        dest@,
    )
}

/// Copies `data` into `mem` from offset `off` on.
pub fn store_bytes(mem: &mut Vec<u8>, off: usize, data: &[u8])
    requires
        off + data@.len() <= old(mem)@.len(),
    ensures
        final(mem)@ == splice(old(mem)@, off as int, data@),
{
    let size: usize = mem.len();
    let mut i: usize = 0;
    while i < data.len()
        invariant
            0 <= i <= data@.len(),
            off + data@.len() <= mem@.len(),
            mem@.len() == old(mem)@.len(),
            mem@.len() == size,
            forall|j: int|
                0 <= j < mem@.len() ==> mem@[j] == (if off <= j < off + i {
                    data@[j - off]
                } else {
                    old(mem)@[j]
                }),
        decreases data@.len() - i,
    {
        mem.set(off + i, data[i]);
        i = i + 1;
    }
    proof {
        assert(mem@ =~= splice(old(mem)@, off as int, data@));
    }
}

impl IPv4Handle {
    /// The header at `buf` and the offset of the payload behind it.
    pub fn allocate(buf: usize) -> (r: (IPv4Handle, usize))
        requires
            buf + 20 <= usize::MAX,
        ensures
            r.0.ptr == buf,
            r.1 == buf + 20,
    {
        (IPv4Handle { ptr: buf }, buf + 20)
    }

    /// The header lies within `mem`.
    pub open spec fn within(&self, mem: Seq<u8>) -> bool {
        self.ptr + 20 <= mem.len()
    }

    /// The protocol of the packet, if it is one that the firmware knows.
    pub fn proto(&self, mem: &[u8]) -> (r: Option<IPProto>)
        requires
            self.within(mem@),
        ensures
            r == proto_of(mem@[self.ptr + 9]),
    {
        let _size: usize = mem.len();
        IPProto::from_byte(mem[self.ptr + 9])
    }

    /// The source address.
    pub fn src(&self, mem: &[u8]) -> (r: [u8; 4])
        requires
            self.within(mem@),
        ensures
            r@ == mem@.subrange(self.ptr + 12, self.ptr + 16),
            r == arr4(mem@.subrange(self.ptr + 12, self.ptr + 16)),
    {
        let _size: usize = mem.len();
        read4(mem, self.ptr + 12)
    }

    /// The destination address.
    pub fn dest(&self, mem: &[u8]) -> (r: [u8; 4])
        requires
            self.within(mem@),
        ensures
            r@ == mem@.subrange(self.ptr + 16, self.ptr + 20),
            r == arr4(mem@.subrange(self.ptr + 16, self.ptr + 20)),
    {
        let _size: usize = mem.len();
        read4(mem, self.ptr + 16)
    }

    /// The total length of the packet as the header gives it, high byte
    /// first.
    pub open spec fn total_len(&self, mem: Seq<u8>) -> u16 {
        le16(mem[self.ptr + 3], mem[self.ptr + 2])
    }

    /// The length of the payload: the total length less the header. `None`
    /// for a total length shorter than a header.
    pub fn payload_len(&self, mem: &[u8]) -> (r: Option<u16>)
        requires
            self.within(mem@),
        ensures
            r == (if self.total_len(mem@) >= 20 {
                Some((self.total_len(mem@) - 20) as u16)
            } else {
                None
            }),
    {
        let _size: usize = mem.len();
        let total = join16(mem[self.ptr + 3], mem[self.ptr + 2]);
        if total >= 20 {
            Some(total - 20)
        } else {
            None
        }
    }

    /// Fills in the header checksum.
    pub fn fill_chksum(&mut self, mem: &mut Vec<u8>)
        requires
            old(self).within(old(mem)@),
        ensures
            *final(self) == *old(self),
            final(mem)@ == with_checksum(old(mem)@, old(self).ptr as int),
    {
        let size: usize = mem.len();
        let mut sum: u32 = 0;
        let mut i: usize = 0;
        while i < 10
            invariant
                0 <= i <= 10,
                self.within(mem@),
                mem@.len() == size,
                sum == header_sum(mem@, self.ptr as int, i as int),
                sum <= 65535 * i,
            decreases 10 - i,
        {
            if i != 5 {
                let readout = join16(mem[self.ptr + 2 * i], mem[self.ptr + 2 * i + 1]);
                sum = sum + readout as u32;
            }
            i = i + 1;
        }
        let (lo, hi) = split16(fold16(sum));
        let field: [u8; 2] = [lo, hi];
        assert(field@ =~= le_bytes(ip_checksum(mem@, self.ptr as int)));
        store_bytes(mem, self.ptr + 10, field.as_slice());
    }

    /// Writes the header of a packet that the firmware originates, over a
    /// header that is otherwise zero: version 4 and five words of header,
    /// the total length, the time to live, the protocol and the two
    /// addresses, then the checksum.
    pub fn outgoing(
        &mut self,
        mem: &mut Vec<u8>,
        proto: IPProto,
        payload_len: u16,
        src: [u8; 4],
        dest: [u8; 4],
    )
        requires
            old(self).within(old(mem)@),
            payload_len + 20 <= u16::MAX,
        ensures
            *final(self) == *old(self),
            final(mem)@ == with_checksum(
                stamped(old(mem)@, old(self).ptr as int, proto, payload_len, src, dest),
                old(self).ptr as int,
            ),
    {
        let _size: usize = mem.len();
        mem.set(self.ptr, 0x45);
        let (lo, hi) = split16(payload_len + 20);
        let total: [u8; 2] = [hi, lo];
        assert(total@ =~= be_bytes((payload_len + 20) as u16));
        store_bytes(mem, self.ptr + 2, total.as_slice());
        let ttl_proto: [u8; 2] = [IP_OUTGOING_TTL, proto.code()];
        assert(ttl_proto@ =~= seq![IP_OUTGOING_TTL, proto.code_spec()]);
        store_bytes(mem, self.ptr + 8, ttl_proto.as_slice());
        store_bytes(mem, self.ptr + 12, src.as_slice());
        store_bytes(mem, self.ptr + 16, dest.as_slice());
        self.fill_chksum(mem);
    }
}

/// The type of an ICMP message.
#[derive(Clone, Copy, Debug, PartialEq, Eq, Structural)]
pub enum ICMPType {
    EchoReply,
    Unreachable,
    Redirect,
    EchoRequest,
    RouterAd,
    RouterSol,
    TimeExceeded,
    BadIPHeader,
    Timestamp,
    TimestampReply,
}

/// The type that a type byte stands for, if the firmware knows it.
pub open spec fn message_kind_of(b: u8) -> Option<ICMPType> {
    if b == 0 {
        Some(ICMPType::EchoReply)
    } else if b == 3 {
        Some(ICMPType::Unreachable)
    } else if b == 5 {
        Some(ICMPType::Redirect)
    } else if b == 8 {
        Some(ICMPType::EchoRequest)
    } else if b == 9 {
        Some(ICMPType::RouterAd)
    } else if b == 10 {
        Some(ICMPType::RouterSol)
    } else if b == 11 {
        Some(ICMPType::TimeExceeded)
    } else if b == 12 {
        Some(ICMPType::BadIPHeader)
    } else if b == 13 {
        Some(ICMPType::Timestamp)
    } else if b == 14 {
        Some(ICMPType::TimestampReply)
    } else {
        None
    }
}

impl ICMPType {
    /// The type byte.
    pub open spec fn code_spec(self) -> u8 {
        match self {
            ICMPType::EchoReply => 0,
            ICMPType::Unreachable => 3,
            ICMPType::Redirect => 5,
            ICMPType::EchoRequest => 8,
            ICMPType::RouterAd => 9,
            ICMPType::RouterSol => 10,
            ICMPType::TimeExceeded => 11,
            ICMPType::BadIPHeader => 12,
            ICMPType::Timestamp => 13,
            ICMPType::TimestampReply => 14,
        }
    }

    /// The type byte.
    pub fn code(&self) -> (r: u8)
        ensures
            r == self.code_spec(),
            message_kind_of(r) == Some(*self),
    {
        match self {
            ICMPType::EchoReply => 0,
            ICMPType::Unreachable => 3,
            ICMPType::Redirect => 5,
            ICMPType::EchoRequest => 8,
            ICMPType::RouterAd => 9,
            ICMPType::RouterSol => 10,
            ICMPType::TimeExceeded => 11,
            ICMPType::BadIPHeader => 12,
            ICMPType::Timestamp => 13,
            ICMPType::TimestampReply => 14,
        }
    }

    /// The type that a type byte stands for.
    pub fn from_byte(b: u8) -> (r: Option<ICMPType>)
        ensures
            r == message_kind_of(b),
    {
        if b == 0 {
            Some(ICMPType::EchoReply)
        } else if b == 3 {
            Some(ICMPType::Unreachable)
        } else if b == 5 {
            Some(ICMPType::Redirect)
        } else if b == 8 {
            Some(ICMPType::EchoRequest)
        } else if b == 9 {
            Some(ICMPType::RouterAd)
        } else if b == 10 {
            Some(ICMPType::RouterSol)
        } else if b == 11 {
            Some(ICMPType::TimeExceeded)
        } else if b == 12 {
            Some(ICMPType::BadIPHeader)
        } else if b == 13 {
            Some(ICMPType::Timestamp)
        } else if b == 14 {
            Some(ICMPType::TimestampReply)
        } else {
            None
        }
    }
}

/// An ICMP message with a body of up to `U16_BODY` 16-bit words. The words
/// of `chksum`, `rest` and `body` are the message's bytes in pairs, low byte
/// first.
#[derive(Clone, Copy)]
pub struct ICMPHeader<const U16_BODY: usize> {
    pub kind: ICMPType,
    pub code: u8,
    pub chksum: u16,
    pub rest: [u16; 2],
    pub body: [u16; U16_BODY],
}

/// The sum of the first `n` words of a body.
pub open spec fn body_sum(body: Seq<u16>, n: int) -> nat
    decreases n,
{
    if n <= 0 {
        0
    } else {
        body_sum(body, n - 1) + body[n - 1] as nat
    }
}

/// The `i`-th 16-bit word, low byte first, of the bytes from `off` on.
pub open spec fn word_at(b: Seq<u8>, off: int, i: int) -> u16 {
    le16(b[off + 2 * i], b[off + 2 * i + 1])
}

impl<const U16_BODY: usize> ICMPHeader<U16_BODY> {
    /// Bytes that the message takes with its whole body.
    pub open spec fn byte_len() -> int {
        8 + 2 * U16_BODY
    }

    /// How many words of the body a message of `totlen` bytes has.
    pub open spec fn body_words(totlen: u16) -> int {
        totlen / 2 - 4
    }

    /// The checksum of a message of `totlen` bytes: the ones'-complement sum
    /// of the type byte times 256, the code, the two words of `rest` and the
    /// words of the body.
    pub open spec fn checksum(self, totlen: u16) -> u16 {
        ones_fold(
            self.kind.code_spec() as nat * 256 + self.code as nat + self.rest[0] as nat
                + self.rest[1] as nat + body_sum(self.body@, Self::body_words(totlen)),
        ) as u16
    }

    /// Fills in the checksum of a message of `totlen` bytes. A message has
    /// at least its eight bytes of header, and a body that the type can
    /// hold.
    pub fn fill_chksum(&mut self, totlen: u16)
        requires
            totlen >= 8,
            totlen / 2 - 4 <= U16_BODY,
        ensures
            final(self).chksum == old(self).checksum(totlen),
            final(self).kind == old(self).kind,
            final(self).code == old(self).code,
            final(self).rest == old(self).rest,
            final(self).body == old(self).body,
    {
        let kind: u32 = self.kind.code() as u32;
        assert(kind << 8 == kind * 256) by (bit_vector)
            requires
                kind < 256,
        ;
        let mut sum: u32 = (kind << 8) + self.code as u32 + self.rest[0] as u32
            + self.rest[1] as u32;
        let words: u16 = totlen / 2 - 4;
        let mut idx: u16 = 0;
        while idx < words
            invariant
                0 <= idx <= words,
                words <= U16_BODY,
                words <= 32763,
                *self == *old(self),
                sum == self.kind.code_spec() as nat * 256 + self.code as nat
                    + self.rest[0] as nat + self.rest[1] as nat + body_sum(self.body@, idx as int),
                sum <= 65536 * 3 + 65535 * idx,
            decreases words - idx,
        {
            sum = sum + self.body[idx as usize] as u32;
            idx = idx + 1;
        }
        self.chksum = fold16(sum);
    }

    /// Reads a message from the bytes at `off`. `None` for a type that the
    /// firmware does not know.
    pub fn parse(b: &[u8], off: usize) -> (r: Option<Self>)
        requires
            off + 8 + 2 * U16_BODY <= b@.len(),
        ensures
            match message_kind_of(b@[off as int]) {
                None => r is None,
                Some(t) => r matches Some(m) && {
                    &&& m.kind == t
                    &&& m.code == b@[off + 1]
                    &&& m.chksum == word_at(b@, off + 2, 0)
                    &&& m.rest[0] == word_at(b@, off + 4, 0)
                    &&& m.rest[1] == word_at(b@, off + 4, 1)
                    &&& forall|i: int|
                        0 <= i < U16_BODY ==> #[trigger] m.body[i] == word_at(b@, off + 8, i)
                },
            },
    {
        let size: usize = b.len();
        match ICMPType::from_byte(b[off]) {
            None => None,
            Some(t) => {
                let mut body: [u16; U16_BODY] = [0u16;U16_BODY];
                let mut i: usize = 0;
                while i < U16_BODY
                    invariant
                        0 <= i <= U16_BODY,
                        off + 8 + 2 * U16_BODY <= b@.len(),
                        b@.len() == size,
                        forall|j: int| 0 <= j < i ==> #[trigger] body[j] == word_at(b@, off + 8, j),
                    decreases U16_BODY - i,
                {
                    body[i] = join16(b[off + 8 + 2 * i], b[off + 8 + 2 * i + 1]);
                    i = i + 1;
                }
                Some(
                    ICMPHeader {
                        kind: t,
                        code: b[off + 1],
                        chksum: join16(b[off + 2], b[off + 3]),
                        rest: [join16(b[off + 4], b[off + 5]), join16(b[off + 6], b[off + 7])],
                        body,
                    },
                )
            },
        }
    }

    /// The bytes of the message, its whole body included.
    pub fn to_bytes(&self) -> (r: Vec<u8>)
        ensures
            r@.len() == Self::byte_len(),
            r@[0] == self.kind.code_spec(),
            r@[1] == self.code,
            word_at(r@, 2, 0) == self.chksum,
            word_at(r@, 4, 0) == self.rest[0],
            word_at(r@, 4, 1) == self.rest[1],
            forall|i: int| 0 <= i < U16_BODY ==> #[trigger] word_at(r@, 8, i) == self.body[i],
    {
        let mut r: Vec<u8> = Vec::new();
        r.push(self.kind.code());
        r.push(self.code);
        let (c0, c1) = split16(self.chksum);
        r.push(c0);
        r.push(c1);
        let (a0, a1) = split16(self.rest[0]);
        r.push(a0);
        r.push(a1);
        let (b0, b1) = split16(self.rest[1]);
        r.push(b0);
        r.push(b1);
        let mut i: usize = 0;
        while i < U16_BODY
            invariant
                0 <= i <= U16_BODY,
                r@.len() == 8 + 2 * i,
                r@[0] == self.kind.code_spec(),
                r@[1] == self.code,
                word_at(r@, 2, 0) == self.chksum,
                word_at(r@, 4, 0) == self.rest[0],
                word_at(r@, 4, 1) == self.rest[1],
                forall|j: int| 0 <= j < i ==> #[trigger] word_at(r@, 8, j) == self.body[j],
            decreases U16_BODY - i,
        {
            let (w0, w1) = split16(self.body[i]);
            let ghost before = r@;
            r.push(w0);
            r.push(w1);
            proof {
                assert forall|j: int| 0 <= j < i + 1 implies #[trigger] word_at(r@, 8, j)
                    == self.body[j] by {
                    if j < i {
                        assert(word_at(r@, 8, j) == word_at(before, 8, j));
                    }
                }
            }
            i = i + 1;
        }
        r
    }
}


} // verus!
