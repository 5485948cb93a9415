//! The firmware's side of the memory-mapped hardware: an image of the
//! buffer ring, which the firmware reads and fills, and the ordered list of
//! what it asks of the devices. The driver around the library copies cells
//! from the device into the image and carries the requests out, one after
//! the other.

use vstd::prelude::*;

verus! {

/// Bytes in one cell of the buffer ring.
pub const BUF_CELL_SIZE: usize = 2048;

/// Number of cells in the ring.
pub const BUF_COUNT: u8 = 8;

/// Bytes in the whole ring.
pub const RING_SIZE: usize = 16384;

/// One request to the hardware or to the routing protocol above.
#[derive(Debug, Clone, PartialEq, Eq)]
pub enum BusOp {
    /// A 32-bit store into the command register pair, into its upper or its
    /// lower word.
    CmdWrite { upper: bool, word: u32 },
    /// Hand a cell to the NIC: copy `image` into the device's cell, the
    /// state byte last, and wait until the NIC has given the cell back.
    Transmit { cell: u8, image: Vec<u8> },
    /// Give a cell back to the NIC: mark the device's cell vacant.
    Release { cell: u8 },
    /// Pass the IP packet in a cell, `length` bytes of it, up to the routing
    /// protocol.
    Deliver { cell: u8, length: u16, src_mac: [u8; 6], port: u8 },
}

/// A request as contracts see it.
pub enum BusOpView {
    CmdWrite { upper: bool, word: u32 },
    Transmit { cell: u8, image: Seq<u8> },
    Release { cell: u8 },
    Deliver { cell: u8, length: u16, src_mac: [u8; 6], port: u8 },
}

impl View for BusOp {
    type V = BusOpView;

    open spec fn view(&self) -> BusOpView {
        match *self {
            BusOp::CmdWrite { upper, word } => BusOpView::CmdWrite { upper, word },
            BusOp::Transmit { cell, image } => BusOpView::Transmit { cell, image: image@ },
            BusOp::Release { cell } => BusOpView::Release { cell },
            BusOp::Deliver { cell, length, src_mac, port } => BusOpView::Deliver {
                cell,
                length,
                src_mac,
                port,
            },
        }
    }
}

/// The requests of a list, each as contracts see it.
pub open spec fn ops_view(ops: Seq<BusOp>) -> Seq<BusOpView> {
    Seq::new(ops.len(), |i: int| ops[i]@)
}

/// `mem` with `data` written over it from offset `off` on.
pub open spec fn splice(mem: Seq<u8>, off: int, data: Seq<u8>) -> Seq<u8> {
    Seq::new(
        mem.len(),
        |i: int|
            if off <= i < off + data.len() {
                data[i - off]
            } else {
                mem[i]
            },
    )
}

/// The image of the ring and the requests not yet carried out.
pub struct Bus {
    mem: Vec<u8>,
    trace: Vec<BusOp>,
}

impl Bus {
    /// The image of the ring: cell `c` is the bytes from `2048 * c` on.
    pub closed spec fn mem(&self) -> Seq<u8> {
        self.mem@
    }

    /// The requests made and not yet taken, oldest first.
    pub closed spec fn trace(&self) -> Seq<BusOpView> {
        ops_view(self.trace@)
    }

    /// The image has the size of the ring.
    pub open spec fn wf(&self) -> bool {
        self.mem().len() == RING_SIZE
    }

    /// The image of one cell.
    pub open spec fn cell(&self, c: int) -> Seq<u8> {
        self.mem().subrange(2048 * c, 2048 * c + 2048)
    }

    /// A zeroed image and no requests.
    pub fn new() -> (r: Self)
        ensures
            r.wf(),
            r.mem() == Seq::new(RING_SIZE as nat, |i: int| 0u8),
            r.trace() == Seq::<BusOpView>::empty(),
    {
        let mut mem: Vec<u8> = Vec::new();
        let mut i: usize = 0;
        while i < RING_SIZE
            invariant
                0 <= i <= RING_SIZE,
                mem@.len() == i,
                forall|j: int| 0 <= j < i ==> mem@[j] == 0u8,
            decreases RING_SIZE - i,
        {
            mem.push(0u8);
            i = i + 1;
        }
        let r = Bus { mem, trace: Vec::new() };
        proof {
            assert(r.mem@ =~= Seq::new(RING_SIZE as nat, |i: int| 0u8));
            assert(r.trace() =~= Seq::<BusOpView>::empty());
        }
        r
    }

    /// The image, to read.
    pub fn bytes(&self) -> (r: &Vec<u8>)
        ensures
            r@ == self.mem(),
    {
        &self.mem
    }

    /// One byte of the image.
    pub fn read(&self, off: usize) -> (r: u8)
        requires
            self.wf(),
            off < RING_SIZE,
        ensures
            r == self.mem()[off as int],
    {
        self.mem[off]
    }

    /// Sets one byte of the image.
    pub fn write(&mut self, off: usize, v: u8)
        requires
            old(self).wf(),
            off < RING_SIZE,
        ensures
            final(self).wf(),
            final(self).mem() == old(self).mem().update(off as int, v),
            final(self).trace() == old(self).trace(),
    {
        self.mem.set(off, v);
    }

    /// Copies `data` into the image from offset `off` on.
    pub fn store(&mut self, off: usize, data: &[u8])
        requires
            old(self).wf(),
            off + data@.len() <= RING_SIZE,
        ensures
            final(self).wf(),
            final(self).mem() == splice(old(self).mem(), off as int, data@),
            final(self).trace() == old(self).trace(),
    {
        let mut i: usize = 0;
        while i < data.len()
            invariant
                0 <= i <= data@.len(),
                off + data@.len() <= RING_SIZE,
                self.mem@.len() == RING_SIZE,
                self.trace == old(self).trace,
                forall|j: int|
                    0 <= j < RING_SIZE ==> self.mem@[j] == (if off <= j < off + i {
                        data@[j - off]
                    } else {
                        old(self).mem@[j]
                    }),
            decreases data@.len() - i,
        {
            self.mem.set(off + i, data[i]);
            i = i + 1;
        }
        proof {
            assert(self.mem@ =~= splice(old(self).mem@, off as int, data@));
        }
    }

    /// Adds a request.
    pub fn emit(&mut self, op: BusOp)
        ensures
            final(self).wf() == old(self).wf(),
            final(self).mem() == old(self).mem(),
            final(self).trace() == old(self).trace().push(op@),
    {
        self.trace.push(op);
        proof {
            assert(ops_view(self.trace@) =~= ops_view(old(self).trace@).push(op@));
        }
    }

    /// Replaces the image of cell `cell` by what the driver read from the
    /// device. Refused, with nothing changed, unless `cell` is a cell of the
    /// ring and `image` has the size of one.
    pub fn load(&mut self, cell: u8, image: &[u8]) -> (ok: bool)
        requires
            old(self).wf(),
        ensures
            final(self).wf(),
            final(self).trace() == old(self).trace(),
            ok <==> cell < BUF_COUNT && image@.len() == BUF_CELL_SIZE,
            ok ==> final(self).mem() == splice(old(self).mem(), 2048 * cell, image@),
            !ok ==> final(self).mem() == old(self).mem(),
    {
        if cell >= BUF_COUNT || image.len() != BUF_CELL_SIZE {
            return false;
        }
        self.store((cell as usize) * BUF_CELL_SIZE, image);
        true
    }

    /// Hands the requests made so far to the driver, oldest first, and
    /// starts a new list.
    pub fn take_trace(&mut self) -> (r: Vec<BusOp>)
        ensures
            final(self).wf() == old(self).wf(),
            final(self).mem() == old(self).mem(),
            final(self).trace() == Seq::<BusOpView>::empty(),
            ops_view(r@) == old(self).trace(),
    {
        let mut out: Vec<BusOp> = Vec::new();
        core::mem::swap(&mut out, &mut self.trace);
        proof {
            assert(ops_view(self.trace@) =~= Seq::<BusOpView>::empty());
        }
        out
    }
}

} // verus!
