//! ARP packets for IPv4 over Ethernet.

use vstd::prelude::*;
use crate::buf::{eth_type_of, join16, le16, read4, read6, split16, EthType};

verus! {

/// Length of an ARP packet for IPv4 over Ethernet.
pub const ARP_LEN: usize = 28;

/// The hardware type. The number is the field read low byte first.
#[derive(Clone, Copy, Debug, PartialEq, Eq, Structural)]
pub enum HType {
    Eth,
}

/// The operation. The numbers are the field read low byte first.
#[derive(Clone, Copy, Debug, PartialEq, Eq, Structural)]
pub enum Oper {
    Req,
    Reply,
}

/// The operation that an operation field, read low byte first, stands for.
pub open spec fn oper_of(v: u16) -> Option<Oper> {
    if v == 0x0100 {
        Some(Oper::Req)
    } else if v == 0x0200 {
        Some(Oper::Reply)
    } else {
        None
    }
}

/// The hardware type that a hardware type field, read low byte first,
/// stands for.
pub open spec fn htype_of(v: u16) -> Option<HType> {
    if v == 0x0100 {
        Some(HType::Eth)
    } else {
        None
    }
}

impl HType {
    /// The hardware type field, read low byte first.
    pub open spec fn code_spec(self) -> u16 {
        0x0100
    }

    /// The hardware type field, read low byte first.
    pub fn code(&self) -> (r: u16)
        ensures
            r == self.code_spec(),
            htype_of(r) == Some(*self),
    {
        match self {
            HType::Eth => 0x0100,
        }
    }

    /// The hardware type that the field stands for.
    pub fn from_code(v: u16) -> (r: Option<HType>)
        ensures
            r == htype_of(v),
    {
        if v == 0x0100 {
            Some(HType::Eth)
        } else {
            None
        }
    }
}

impl Oper {
    /// The operation field, read low byte first.
    pub open spec fn code_spec(self) -> u16 {
        match self {
            Oper::Req => 0x0100,
            Oper::Reply => 0x0200,
        }
    }

    /// The operation field, read low byte first.
    pub fn code(&self) -> (r: u16)
        ensures
            r == self.code_spec(),
            oper_of(r) == Some(*self),
    {
        match self {
            Oper::Req => 0x0100,
            Oper::Reply => 0x0200,
        }
    }

    /// The operation that the field stands for.
    pub fn from_code(v: u16) -> (r: Option<Oper>)
        ensures
            r == oper_of(v),
    {
        if v == 0x0100 {
            Some(Oper::Req)
        } else if v == 0x0200 {
            Some(Oper::Reply)
        } else {
            None
        }
    }
}

/// An ARP packet: who asks or answers (`sha`, `spa`) and about whom (`tha`,
/// `tpa`).
#[derive(Clone, Copy, Debug)]
pub struct ARP {
    pub htype: HType,
    pub ptype: EthType,
    pub hlen: u8,
    pub plen: u8,
    pub op: Oper,
    pub sha: [u8; 6],
    pub spa: [u8; 4],
    pub tha: [u8; 6],
    pub tpa: [u8; 4],
}

impl ARP {
    /// The 28 bytes of the packet: the three 16-bit fields low byte first,
    /// the addresses as they are.
    pub open spec fn bytes(self) -> Seq<u8> {
        seq![
            (self.htype.code_spec() % 256) as u8,
            (self.htype.code_spec() / 256) as u8,
            (self.ptype.code_spec() % 256) as u8,
            (self.ptype.code_spec() / 256) as u8,
            self.hlen,
            self.plen,
            (self.op.code_spec() % 256) as u8,
            (self.op.code_spec() / 256) as u8,
        ] + self.sha@ + self.spa@ + self.tha@ + self.tpa@
    }

    /// Whether the 28 bytes at `off` are a packet that the firmware can
    /// read: the hardware type, the protocol type and the operation are
    /// known.
    pub open spec fn readable(b: Seq<u8>, off: int) -> bool {
        &&& htype_of(le16(b[off], b[off + 1])) is Some
        &&& eth_type_of(le16(b[off + 2], b[off + 3])) is Some
        &&& oper_of(le16(b[off + 6], b[off + 7])) is Some
    }

    /// Reads the packet at `off`. `None` where it is not readable.
    pub fn parse(b: &[u8], off: usize) -> (r: Option<ARP>)
        requires
            off + 28 <= b@.len(),
        ensures
            r is Some <==> ARP::readable(b@, off as int),
            r matches Some(p) ==> p.bytes() == b@.subrange(off as int, off + 28),
    {
        let htype = HType::from_code(join16(b[off], b[off + 1]));
        let ptype = EthType::from_code(join16(b[off + 2], b[off + 3]));
        let op = Oper::from_code(join16(b[off + 6], b[off + 7]));
        match (htype, ptype, op) {
            (Some(htype), Some(ptype), Some(op)) => {
                let p = ARP {
                    htype,
                    ptype,
                    hlen: b[off + 4],
                    plen: b[off + 5],
                    op,
                    sha: read6(b, off + 8),
                    spa: read4(b, off + 14),
                    tha: read6(b, off + 18),
                    tpa: read4(b, off + 24),
                };
                proof {
                    let pb = p.bytes();
                    let sub = b@.subrange(off as int, off + 28);
                    assert(pb.len() == 28);
                    assert forall|i: int| 0 <= i < 28 implies pb[i] == sub[i] by {
                        if i >= 24 {
                            assert(pb[i] == p.tpa@[i - 24]);
                        } else if i >= 18 {
                            assert(pb[i] == p.tha@[i - 18]);
                        } else if i >= 14 {
                            assert(pb[i] == p.spa@[i - 14]);
                        } else if i >= 8 {
                            assert(pb[i] == p.sha@[i - 8]);
                        }
                    }
                    assert(pb =~= sub);
                }
                Some(p)
            },
            _ => None,
        }
    }

    /// The bytes of the packet.
    pub fn to_bytes(&self) -> (r: Vec<u8>)
        ensures
            r@ == self.bytes(),
            r@.len() == 28,
    {
        let (h0, h1) = split16(self.htype.code());
        let (t0, t1) = split16(self.ptype.code());
        let (o0, o1) = split16(self.op.code());
        let mut r: Vec<u8> = Vec::new();
        r.push(h0);
        r.push(h1);
        r.push(t0);
        r.push(t1);
        r.push(self.hlen);
        r.push(self.plen);
        r.push(o0);
        r.push(o1);
        let mut i: usize = 0;
        while i < 6
            invariant
                0 <= i <= 6,
                r@.len() == 8 + i,
                r@.subrange(0, 8) == self.bytes().subrange(0, 8),
                forall|j: int| 0 <= j < i ==> r@[8 + j] == self.sha@[j],
            decreases 6 - i,
        {
            r.push(self.sha[i]);
            i = i + 1;
        }
        let mut i: usize = 0;
        while i < 4
            invariant
                0 <= i <= 4,
                r@.len() == 14 + i,
                r@.subrange(0, 8) == self.bytes().subrange(0, 8),
                forall|j: int| 0 <= j < 6 ==> r@[8 + j] == self.sha@[j],
                forall|j: int| 0 <= j < i ==> r@[14 + j] == self.spa@[j],
            decreases 4 - i,
        {
            r.push(self.spa[i]);
            i = i + 1;
        }
        let mut i: usize = 0;
        while i < 6
            invariant
                0 <= i <= 6,
                r@.len() == 18 + i,
                r@.subrange(0, 8) == self.bytes().subrange(0, 8),
                forall|j: int| 0 <= j < 6 ==> r@[8 + j] == self.sha@[j],
                forall|j: int| 0 <= j < 4 ==> r@[14 + j] == self.spa@[j],
                forall|j: int| 0 <= j < i ==> r@[18 + j] == self.tha@[j],
            decreases 6 - i,
        {
            r.push(self.tha[i]);
            i = i + 1;
        }
        let mut i: usize = 0;
        while i < 4
            invariant
                0 <= i <= 4,
                r@.len() == 24 + i,
                r@.subrange(0, 8) == self.bytes().subrange(0, 8),
                forall|j: int| 0 <= j < 6 ==> r@[8 + j] == self.sha@[j],
                forall|j: int| 0 <= j < 4 ==> r@[14 + j] == self.spa@[j],
                forall|j: int| 0 <= j < 6 ==> r@[18 + j] == self.tha@[j],
                forall|j: int| 0 <= j < i ==> r@[24 + j] == self.tpa@[j],
            decreases 4 - i,
        {
            r.push(self.tpa[i]);
            i = i + 1;
        }
        proof {
            let pb = self.bytes();
            assert(pb.len() == 28);
            assert forall|k: int| 0 <= k < 28 implies r@[k] == pb[k] by {
                if k < 8 {
                    assert(r@.subrange(0, 8)[k] == pb.subrange(0, 8)[k]);
                } else if k < 14 {
                    assert(r@[8 + (k - 8)] == self.sha@[k - 8]);
                } else if k < 18 {
                    assert(r@[14 + (k - 14)] == self.spa@[k - 14]);
                } else if k < 24 {
                    assert(r@[18 + (k - 18)] == self.tha@[k - 18]);
                } else {
                    assert(r@[24 + (k - 24)] == self.tpa@[k - 24]);
                }
            }
            assert(r@ =~= pb);
        }
        r
    }
}

} // verus!
