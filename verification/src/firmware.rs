//! The slow path of the router: what the firmware does with each cell that
//! the NIC hands it, and what the routing protocol above may ask of it.

use vstd::prelude::*;
use crate::buf::{
    arr4, arr6, body_sum, le16, le_bytes, message_kind_of, next_cell, ones_fold, proto_of, read4,
    stamped, transmit_of, with_checksum, with_data, with_dest, with_eth_type, with_payload_len,
    with_port, with_src, with_state, word_at, BufHandle, BufState, EthType, ICMPHeader, ICMPType,
    IPProto, IPv4Handle, ParsedBufHandle,
};
use crate::buf::{rst_buf, snd_buf};
use crate::bus::{splice, Bus, BusOp, BusOpView};
use crate::cmd::{cmd_stores, ip_data, mac_data, Cmd, Op};
use crate::data::arp::{oper_of, Oper, ARP};
use crate::forward::{is_zero, key_is_zero, Cuckoo};
use crate::nc::{first_match, fresh_entry, promote_stores, NCEntry, NeighboorCache};
use crate::routing::{
    ip_eq, last_cover, lemma_route_is_longest_match, needs_node, root_addr, route, rules_valid,
    sorted_by_len, trie_nodes, wanted, IPAddr, NodeAddr, Rule, Trie, TrieBuf,
};

verus! {

/// Number of ports.
pub const PORT_COUNT: usize = 5;

/// Most rules that the rule set holds.
pub const RULE_LIMIT: usize = 8192;

/// The address and the hardware address of each port.
#[derive(Clone, Copy)]
pub struct Ports {
    pub ips: [[u8; 4]; 5],
    pub macs: [[u8; 6]; 5],
}

impl Ports {
    /// The addresses that the router has out of the box: `10.0.0.1` on port
    /// 0 and `192.168.k.1` on port `k + 1`, with the hardware addresses
    /// `9C:EB:00:00:01:00` on port 0 and `9C:EB:00:00:00:0p` on port `p`.
    pub fn standard() -> (r: Ports)
        ensures
            r.ips[0]@ == seq![10u8, 0u8, 0u8, 1u8],
            forall|p: int| 1 <= p < 5 ==> (#[trigger] r.ips[p])@ == seq![192u8, 168u8, (p - 1) as u8, 1u8],
            r.macs[0]@ == seq![0x9cu8, 0xebu8, 0u8, 0u8, 1u8, 0u8],
            forall|p: int|
                1 <= p < 5 ==> (#[trigger] r.macs[p])@ == seq![0x9cu8, 0xebu8, 0u8, 0u8, 0u8, p as u8],
    {
        let r = Ports {
            ips: [[10, 0, 0, 1], [192, 168, 0, 1], [192, 168, 1, 1], [192, 168, 2, 1], [192, 168, 3, 1]],
            macs: [
                [0x9c, 0xeb, 0, 0, 1, 0],
                [0x9c, 0xeb, 0, 0, 0, 1],
                [0x9c, 0xeb, 0, 0, 0, 2],
                [0x9c, 0xeb, 0, 0, 0, 3],
                [0x9c, 0xeb, 0, 0, 0, 4],
            ],
        };
        proof {
            assert(r.ips[0]@ =~= seq![10u8, 0u8, 0u8, 1u8]);
            assert(r.ips[1]@ =~= seq![192u8, 168u8, 0u8, 1u8]);
            assert(r.ips[2]@ =~= seq![192u8, 168u8, 1u8, 1u8]);
            assert(r.ips[3]@ =~= seq![192u8, 168u8, 2u8, 1u8]);
            assert(r.ips[4]@ =~= seq![192u8, 168u8, 3u8, 1u8]);
            assert(r.macs[0]@ =~= seq![0x9cu8, 0xebu8, 0u8, 0u8, 1u8, 0u8]);
            assert(r.macs[1]@ =~= seq![0x9cu8, 0xebu8, 0u8, 0u8, 0u8, 1u8]);
            assert(r.macs[2]@ =~= seq![0x9cu8, 0xebu8, 0u8, 0u8, 0u8, 2u8]);
            assert(r.macs[3]@ =~= seq![0x9cu8, 0xebu8, 0u8, 0u8, 0u8, 3u8]);
            assert(r.macs[4]@ =~= seq![0x9cu8, 0xebu8, 0u8, 0u8, 0u8, 4u8]);
        }
        r
    }
}

/// What came of polling the cell under the receive cursor.
#[derive(Clone, Copy, Debug, PartialEq, Eq, Structural)]
pub enum Step {
    /// The cell is not the firmware's to handle: nothing was done.
    Idle,
    /// The cell was handled and given back to the NIC.
    Handled,
    /// No route covers the destination of a forward miss: the device halts.
    Halt,
}

/// The state of the slow path.
pub struct Router<const LEN: usize> {
    /// The ports' addresses.
    pub ports: Ports,
    /// The receive cursor.
    pub rx: BufHandle,
    /// The send cursor.
    pub tx: BufHandle,
    /// The neighbour cache.
    pub ncache: NeighboorCache,
    /// The arena of the routing trie.
    pub trie: TrieBuf<LEN>,
    /// The root of the routing trie, once it is built.
    pub root: Option<Trie>,
    /// The forwarding cache.
    pub cuckoo: Cuckoo,
}

/// The bytes of the ARP reply to the request `req` from the port with the
/// given addresses: the request's header with the operation of a reply, the
/// port as sender, and the request's sender as target.
pub open spec fn arp_reply_bytes(req: Seq<u8>, mac: [u8; 6], ip: [u8; 4]) -> Seq<u8> {
    req.subrange(0, 6) + seq![0u8, 2u8] + mac@ + ip@ + req.subrange(8, 14) + req.subrange(14, 18)
}

/// The bytes of the ARP request for `target` from the port with the given
/// addresses.
pub open spec fn arp_request_bytes(mac: [u8; 6], ip: [u8; 4], target: [u8; 4]) -> Seq<u8> {
    seq![0u8, 1u8, 8u8, 0u8, 6u8, 4u8, 0u8, 1u8] + mac@ + ip@ + seq![0u8, 0u8, 0u8, 0u8, 0u8, 0u8]
        + target@
}

impl<const LEN: usize> Router<LEN> {
    /// The cursors stand where they belong and every part is consistent.
    pub open spec fn wf(&self) -> bool {
        &&& 1 <= self.rx.ptr < 8
        &&& self.tx.ptr == 0
        &&& self.ncache.wf()
        &&& self.cuckoo.wf()
        &&& self.trie.wf()
        &&& match self.root {
            Some(t) => self.trie.root() == Some(t),
            None => true,
        }
    }

    /// Everything but the receive cursor and the neighbour cache is as in
    /// `before`.
    pub open spec fn same_routes(&self, before: &Self) -> bool {
        &&& self.ports == before.ports
        &&& self.tx == before.tx
        &&& self.trie == before.trie
        &&& self.root == before.root
        &&& self.cuckoo == before.cuckoo
    }

    /// What handling an ARP packet comes to, from the state `self` with the
    /// hardware as `bus` to the state `after` with the hardware as `done`.
    ///
    /// A readable reply, and a readable request on a port of the router,
    /// teach the neighbour cache their sender unless it knows it. The
    /// request is answered: the cell then holds the reply from that port,
    /// addressed to the asker, and is sent. Anything else is given back.
    pub open spec fn arp_handled(&self, bus: &Bus, after: &Self, done: &Bus) -> bool {
        let c = self.rx.ptr;
        let off = 2048 * c + 18;
        let mem = bus.mem();
        let req = mem.subrange(off, off + 28);
        let port = mem[2048 * c + 15];
        let spa = arr4(req.subrange(14, 18));
        let sha = arr6(req.subrange(8, 14));
        let op = oper_of(crate::buf::le16(req[6], req[7]));
        let learns = ARP::readable(mem, off) && (op == Some(Oper::Reply) || port < 5)
            && self.ncache.unknown(spa);
        let answers = ARP::readable(mem, off) && op == Some(Oper::Req) && port < 5;
        let learned = if learns {
            self.ncache.put_stores()
        } else {
            Seq::<BusOpView>::empty()
        };
        &&& after.same_routes(self)
        &&& after.rx.ptr == crate::buf::next_cell(c)
        &&& after.ncache.nhwptr() == self.ncache.nhwptr()
        &&& after.ncache.entries() == (if learns {
            self.ncache.entries().update(self.ncache.nptr(), fresh_entry(spa, sha, port))
        } else {
            self.ncache.entries()
        })
        &&& after.ncache.nptr() == (if learns {
            (self.ncache.nptr() + 1) % 16
        } else {
            self.ncache.nptr()
        })
        &&& if answers {
            let out = with_state(
                with_src(
                    with_dest(
                        splice(
                            mem,
                            off,
                            arp_reply_bytes(
                                req,
                                self.ports.macs[port as int],
                                self.ports.ips[port as int],
                            ),
                        ),
                        c,
                        arr6(mem.subrange(2048 * c + 6, 2048 * c + 12)),
                    ),
                    c,
                    self.ports.macs[port as int],
                ),
                c,
                BufState::Outgoing,
            );
            &&& done.mem() == out
            &&& done.trace() == (bus.trace() + learned).push(transmit_of(out, c))
        } else {
            &&& done.mem() == with_state(mem, c, BufState::Vacant)
            &&& done.trace() == (bus.trace() + learned).push(BusOpView::Release { cell: c })
        }
    }

    /// Handles the incoming ARP packet at `off`, the payload of the cell
    /// under the receive cursor.
    pub fn handle_arp(&mut self, bus: &mut Bus, off: usize)
        requires
            old(self).wf(),
            old(bus).wf(),
            off == old(self).rx.base() + 18,
        ensures
            final(self).wf(),
            final(bus).wf(),
            old(self).arp_handled(old(bus), final(self), final(bus)),
    {
        let ghost mem = bus.mem();
        let ghost c = self.rx.ptr;
        let ghost req = mem.subrange(off as int, off + 28);
        let parsed = ARP::parse(bus.bytes().as_slice(), off);
        let port = self.rx.port(bus);
        proof {
            assert(bus.trace() + Seq::<BusOpView>::empty() =~= bus.trace());
        }
        match parsed {
            None => {
                self.rx.drop(bus);
            },
            Some(arp) => {
                proof {
                    let pb = arp.bytes();
                    assert(pb == req);
                    assert(arp.sha@ =~= req.subrange(8, 14));
                    assert(arp.spa@ =~= req.subrange(14, 18));
                    assert(arp.sha =~= arr6(req.subrange(8, 14)));
                    assert(arp.spa =~= arr4(req.subrange(14, 18)));
                    assert(req[6] == pb[6] && req[7] == pb[7]);
                    assert(req[6] == mem[off + 6] && req[7] == mem[off + 7]);
                    assert(oper_of(crate::buf::le16(req[6], req[7])) == Some(arp.op));
                }
                match arp.op {
                    Oper::Reply => {
                        self.ncache.learn(arp.spa, arp.sha, port, bus);
                        self.rx.drop(bus);
                    },
                    Oper::Req => {
                        if port as usize >= PORT_COUNT {
                            self.rx.drop(bus);
                        } else {
                            self.ncache.learn(arp.spa, arp.sha, port, bus);
                            let mac = self.ports.macs[port as usize];
                            let ip = self.ports.ips[port as usize];
                            let reply = ARP {
                                htype: arp.htype,
                                ptype: arp.ptype,
                                hlen: arp.hlen,
                                plen: arp.plen,
                                op: Oper::Reply,
                                sha: mac,
                                spa: ip,
                                tha: arp.sha,
                                tpa: arp.spa,
                            };
                            let bytes = reply.to_bytes();
                            proof {
                                assert(bytes@ =~= arp_reply_bytes(req, mac, ip)) by {
                                    let want = arp_reply_bytes(req, mac, ip);
                                    let pb = arp.bytes();
                                    assert(want.len() == 28);
                                    assert forall|i: int| 0 <= i < 28 implies bytes@[i]
                                        == want[i] by {
                                        if i < 6 {
                                            assert(bytes@[i] == pb[i]);
                                        }
                                    }
                                }
                            }
                            bus.store(off, bytes.as_slice());
                            let src = self.rx.src(bus);
                            proof {
                                assert(bus.mem().subrange(2048 * c + 6, 2048 * c + 12) =~= mem.subrange(
                                    2048 * c + 6,
                                    2048 * c + 12,
                                ));
                            }
                            self.rx.write_dest(bus, src);
                            self.rx.write_src(bus, mac);
                            self.rx.send(bus);
                        }
                    },
                }
            },
        }
    }
}

/// `n` zero bytes.
pub open spec fn zeros(n: nat) -> Seq<u8> {
    Seq::new(n, |i: int| 0u8)
}

/// A buffer of `n` zero bytes.
pub fn zeroed(n: usize) -> (r: Vec<u8>)
    ensures
        r@ == zeros(n as nat),
{
    let mut r: Vec<u8> = Vec::new();
    let mut i: usize = 0;
    while i < n
        invariant
            0 <= i <= n,
            r@.len() == i,
            forall|j: int| 0 <= j < i ==> r@[j] == 0u8,
        decreases n - i,
    {
        r.push(0u8);
        i = i + 1;
    }
    assert(r@ =~= zeros(n as nat));
    r
}

/// The sum of `n` 16-bit words, low byte first, of the bytes from `off` on.
pub open spec fn pair_sum(b: Seq<u8>, off: int, n: int) -> nat
    decreases n,
{
    if n <= 0 {
        0
    } else {
        pair_sum(b, off, n - 1) + le16(b[off + 2 * (n - 1)], b[off + 2 * (n - 1) + 1]) as nat
    }
}

/// The checksum of the echo reply to the echo request `q`: the
/// ones'-complement sum of the words of the request behind its first four
/// bytes. Type and code of a reply are 0 and add nothing.
pub open spec fn echo_checksum(q: Seq<u8>) -> u16 {
    ones_fold(pair_sum(q, 4, q.len() / 2 - 2)) as u16
}

/// The echo reply to the echo request `q`: type and code 0, the checksum,
/// and the rest of the request as it is.
pub open spec fn echo_reply_bytes(q: Seq<u8>) -> Seq<u8> {
    seq![0u8, 0u8] + le_bytes(echo_checksum(q)) + q.subrange(4, q.len() as int)
}

/// The header of a packet of `len` payload bytes that the firmware
/// originates, ICMP, from `src` to `dest`.
pub open spec fn reply_header(len: u16, src: [u8; 4], dest: [u8; 4]) -> Seq<u8> {
    with_checksum(stamped(zeros(20), 0, IPProto::ICMP, len, src, dest), 0)
}

/// The image once the send cell holds the echo reply to the request `q`
/// that came from `asker_mac` and `asker_ip` on `port`, handed to the NIC.
pub open spec fn echo_sent(
    mem: Seq<u8>,
    ports: Ports,
    port: u8,
    asker_mac: [u8; 6],
    asker_ip: [u8; 4],
    q: Seq<u8>,
) -> Seq<u8> {
    with_state(
        with_payload_len(
            with_eth_type(
                with_data(
                    with_data(
                        with_port(
                            with_src(with_dest(mem, 0, asker_mac), 0, ports.macs[port as int]),
                            0,
                            port,
                        ),
                        0,
                        0,
                        reply_header(q.len() as u16, ports.ips[port as int], asker_ip),
                    ),
                    0,
                    20,
                    echo_reply_bytes(q),
                ),
                0,
                EthType::IPv4,
            ),
            0,
            (20 + q.len()) as u16,
        ),
        0,
        BufState::Outgoing,
    )
}

/// Sums of words over bytes that agree are the same.
pub proof fn lemma_pair_sum_same(a: Seq<u8>, b: Seq<u8>, off: int, shift: int, n: int)
    requires
        forall|i: int| off <= i < off + 2 * n ==> a[i] == b[i + shift],
    ensures
        pair_sum(a, off, n) == pair_sum(b, off + shift, n),
    decreases n,
{
    if n > 0 {
        lemma_pair_sum_same(a, b, off, shift, n - 1);
        assert(a[off + 2 * (n - 1)] == b[off + 2 * (n - 1) + shift]);
        assert(a[off + 2 * (n - 1) + 1] == b[off + 2 * (n - 1) + 1 + shift]);
    }
}

/// The sum of the words of a message body is the sum of the words of the
/// bytes that it was read from.
pub proof fn lemma_body_sum(body: Seq<u16>, b: Seq<u8>, n: int)
    requires
        forall|j: int| 0 <= j < n ==> #[trigger] body[j] == word_at(b, 8, j),
    ensures
        body_sum(body, n) == pair_sum(b, 8, n),
    decreases n,
{
    if n > 0 {
        lemma_body_sum(body, b, n - 1);
        assert(body[n - 1] == word_at(b, 8, n - 1));
    }
}

/// The words from offset 4 on are the two words at 4 and 6 and the words
/// from offset 8 on.
pub proof fn lemma_pair_sum_split(b: Seq<u8>, n: int)
    requires
        n >= 0,
    ensures
        pair_sum(b, 4, n + 2) == le16(b[4], b[5]) as nat + le16(b[6], b[7]) as nat + pair_sum(
            b,
            8,
            n,
        ),
    decreases n,
{
    if n > 0 {
        lemma_pair_sum_split(b, n - 1);
    } else {
        reveal_with_fuel(pair_sum, 3);
    }
}

/// Two bytes are what their 16-bit word says.
pub proof fn lemma_le16_bytes(a: u8, b: u8, c: u8, d: u8)
    requires
        le16(a, b) == le16(c, d),
    ensures
        a == c,
        b == d,
{
}

impl<const LEN: usize> Router<LEN> {
    /// What handling an IPv4 packet comes to.
    ///
    /// An ICMP echo request of 8 to 128 bytes on a port of the router is
    /// answered through the send cell; a UDP packet is passed up to the
    /// routing protocol; in either case, and for everything else, the cell
    /// is given back.
    pub open spec fn ipv4_handled(&self, bus: &Bus, after: &Self, done: &Bus) -> bool {
        let c = self.rx.ptr;
        let mem = bus.mem();
        let hdr = 2048 * c + 18;
        let body = 2048 * c + 38;
        let port = mem[2048 * c + 15];
        let proto = proto_of(mem[hdr + 9]);
        let total = le16(mem[hdr + 3], mem[hdr + 2]);
        let asker_mac = arr6(mem.subrange(2048 * c + 6, 2048 * c + 12));
        let asker_ip = arr4(mem.subrange(hdr + 12, hdr + 16));
        let echo = proto == Some(IPProto::ICMP) && 28 <= total <= 148 && port < 5
            && message_kind_of(mem[body]) == Some(ICMPType::EchoRequest);
        &&& after.same_routes(self)
        &&& after.ncache == self.ncache
        &&& after.rx.ptr == next_cell(c)
        &&& if echo {
            let q = mem.subrange(body, body + (total - 20));
            let sent = echo_sent(mem, self.ports, port, asker_mac, asker_ip, q);
            &&& done.mem() == with_state(sent, c, BufState::Vacant)
            &&& done.trace() == bus.trace().push(transmit_of(sent, 0)).push(
                BusOpView::Release { cell: c },
            )
        } else if proto == Some(IPProto::UDP) {
            let recorded = le16(mem[2048 * c + 2044], mem[2048 * c + 2045]);
            &&& done.mem() == with_state(mem, c, BufState::Vacant)
            &&& done.trace() == bus.trace().push(
                BusOpView::Deliver {
                    cell: c,
                    length: if recorded >= 18 {
                        (recorded - 18) as u16
                    } else {
                        0u16
                    },
                    src_mac: asker_mac,
                    port,
                },
            ).push(BusOpView::Release { cell: c })
        } else {
            &&& done.mem() == with_state(mem, c, BufState::Vacant)
            &&& done.trace() == bus.trace().push(BusOpView::Release { cell: c })
        }
    }

    /// Puts the echo reply to the request in `rd` into the send cell and
    /// sends it.
    fn echo_reply(
        &mut self,
        bus: &mut Bus,
        req: &ICMPHeader<60>,
        rd: &Vec<u8>,
        tot: u16,
        port: u8,
        asker_mac: [u8; 6],
        asker_ip: [u8; 4],
    )
        requires
            old(self).wf(),
            old(bus).wf(),
            8 <= tot <= 128,
            port < 5,
            rd@.len() == 128,
            req.rest[0] == word_at(rd@, 4, 0),
            req.rest[1] == word_at(rd@, 4, 1),
            forall|i: int| 0 <= i < 60 ==> #[trigger] req.body[i] == word_at(rd@, 8, i),
        ensures
            *final(self) == *old(self),
            final(bus).wf(),
            final(bus).mem() == echo_sent(
                old(bus).mem(),
                old(self).ports,
                port,
                asker_mac,
                asker_ip,
                rd@.subrange(0, tot as int),
            ),
            final(bus).trace() == old(bus).trace().push(transmit_of(final(bus).mem(), 0)),
    {
        let ghost q = rd@.subrange(0, tot as int);
        let mut reply = ICMPHeader::<60> {
            kind: ICMPType::EchoReply,
            code: 0,
            rest: req.rest,
            chksum: 0,
            body: req.body,
        };
        reply.fill_chksum(tot);
        proof {
            let n = tot / 2 - 4;
            lemma_body_sum(reply.body@, rd@, n as int);
            lemma_pair_sum_split(rd@, n as int);
            lemma_pair_sum_same(q, rd@, 4, 0, n + 2);
            assert(reply.chksum == echo_checksum(q));
        }
        let mut ipbuf = zeroed(20);
        let (mut ip, _payload) = IPv4Handle::allocate(0);
        self.tx.write_dest(bus, asker_mac);
        self.tx.write_src(bus, self.ports.macs[port as usize]);
        self.tx.write_port(bus, port);
        ip.outgoing(&mut ipbuf, IPProto::ICMP, tot, self.ports.ips[port as usize], asker_ip);
        let snd_data = self.tx.data();
        bus.store(snd_data, ipbuf.as_slice());
        let bytes = reply.to_bytes();
        let mut out: Vec<u8> = Vec::new();
        let mut i: usize = 0;
        while i < tot as usize
            invariant
                0 <= i <= tot <= 128,
                bytes@.len() == 128,
                out@ == bytes@.subrange(0, i as int),
            decreases tot - i,
        {
            out.push(bytes[i]);
            proof {
                assert(out@ =~= bytes@.subrange(0, i + 1));
            }
            i = i + 1;
        }
        proof {
            let want = echo_reply_bytes(q);
            assert(want.len() == tot);
            assert forall|j: int| 0 <= j < tot implies out@[j] == want[j] by {
                if j >= 8 {
                    let w = (j - 8) / 2;
                    assert(word_at(bytes@, 8, w) == reply.body[w]);
                    assert(reply.body[w] == word_at(rd@, 8, w));
                    lemma_le16_bytes(
                        bytes@[8 + 2 * w],
                        bytes@[8 + 2 * w + 1],
                        rd@[8 + 2 * w],
                        rd@[8 + 2 * w + 1],
                    );
                } else if j >= 4 {
                    let w = (j - 4) / 2;
                    assert(word_at(bytes@, 4, w) == reply.rest[w]);
                    lemma_le16_bytes(
                        bytes@[4 + 2 * w],
                        bytes@[4 + 2 * w + 1],
                        rd@[4 + 2 * w],
                        rd@[4 + 2 * w + 1],
                    );
                } else if j >= 2 {
                    assert(word_at(bytes@, 2, 0) == reply.chksum);
                    lemma_le16_bytes(
                        bytes@[2],
                        bytes@[3],
                        (reply.chksum % 256) as u8,
                        (reply.chksum / 256) as u8,
                    );
                }
            }
            assert(out@ =~= want);
        }
        bus.store(snd_data + 20, out.as_slice());
        self.tx.write_eth_type(bus, EthType::IPv4);
        self.tx.write_payload_len(bus, 20 + tot);
        self.tx.send(bus);
    }

    /// Handles the incoming IPv4 packet whose header is at `handle` and
    /// whose payload starts at `body`, in the cell under the receive cursor.
    pub fn handle_ipv4(&mut self, bus: &mut Bus, handle: IPv4Handle, body: usize)
        requires
            old(self).wf(),
            old(bus).wf(),
            handle.ptr == old(self).rx.base() + 18,
            body == old(self).rx.base() + 38,
        ensures
            final(self).wf(),
            final(bus).wf(),
            old(self).ipv4_handled(old(bus), final(self), final(bus)),
    {
        let ghost mem = bus.mem();
        let ghost c = self.rx.ptr;
        let proto = handle.proto(bus.bytes().as_slice());
        let port = self.rx.port(bus);
        let asker_mac = self.rx.src(bus);
        match proto {
            Some(IPProto::ICMP) => {
                let tot_opt = handle.payload_len(bus.bytes().as_slice());
                let asker_ip = handle.src(bus.bytes().as_slice());
                match tot_opt {
                    Some(tot) => {
                        if tot >= 8 && tot <= 128 && (port as usize) < PORT_COUNT {
                            let mut rd = zeroed(128);
                            let mut i: usize = 0;
                            while i < tot as usize
                                invariant
                                    0 <= i <= tot <= 128,
                                    body + 128 <= 16384,
                                    bus.wf(),
                                    rd@.len() == 128,
                                    forall|j: int| 0 <= j < i ==> rd@[j] == bus.mem()[body + j],
                                decreases tot - i,
                            {
                                rd.set(i, bus.read(body + i));
                                i = i + 1;
                            }
                            proof {
                                assert(rd@.subrange(0, tot as int) =~= mem.subrange(
                                    body as int,
                                    body + tot,
                                ));
                            }
                            match ICMPHeader::<60>::parse(rd.as_slice(), 0) {
                                Some(req) => {
                                    if req.kind == ICMPType::EchoRequest {
                                        self.echo_reply(
                                            bus,
                                            &req,
                                            &rd,
                                            tot,
                                            port,
                                            asker_mac,
                                            asker_ip,
                                        );
                                    }
                                },
                                None => {},
                            }
                        }
                    },
                    None => {},
                }
                self.rx.drop(bus);
            },
            Some(IPProto::UDP) => {
                let length = self.rx.payload_len(bus);
                bus.emit(BusOp::Deliver { cell: self.rx.ptr, length, src_mac: asker_mac, port });
                self.rx.drop(bus);
            },
            _ => {
                self.rx.drop(bus);
            },
        }
    }
}

/// The hardware address that every station listens to.
pub open spec fn broadcast_mac() -> [u8; 6] {
    arr6(seq![255u8, 255u8, 255u8, 255u8, 255u8, 255u8])
}

/// The address with its bytes in reverse order, as the hardware tables take
/// it.
pub open spec fn reversed(a: [u8; 4]) -> [u8; 4] {
    arr4(seq![a[3], a[2], a[1], a[0]])
}

/// The address with its bytes in reverse order.
pub fn reverse_ip(a: &[u8; 4]) -> (r: [u8; 4])
    ensures
        r == reversed(*a),
        is_zero(r) == is_zero(*a),
{
    let r = [a[3], a[2], a[1], a[0]];
    assert(r@ =~= seq![a[3], a[2], a[1], a[0]]);
    assert(arr4(r@) =~= r);
    r
}

/// The image once the send cell holds the ARP request for `target` from
/// port `i`, addressed to everyone and handed to the NIC.
pub open spec fn request_sent(mem: Seq<u8>, ports: Ports, target: [u8; 4], i: int) -> Seq<u8> {
    with_state(
        with_payload_len(
            with_eth_type(
                with_port(
                    with_dest(
                        with_src(
                            with_data(
                                mem,
                                0,
                                0,
                                arp_request_bytes(ports.macs[i], ports.ips[i], target),
                            ),
                            0,
                            ports.macs[i],
                        ),
                        0,
                        broadcast_mac(),
                    ),
                    0,
                    i as u8,
                ),
                0,
                EthType::ARP,
            ),
            0,
            28,
        ),
        0,
        BufState::Outgoing,
    )
}

/// The image after the requests for `target` went out on the ports 1 to
/// `n`, one after the other through the send cell.
pub open spec fn requests_sent(mem: Seq<u8>, ports: Ports, target: [u8; 4], n: int) -> Seq<u8>
    decreases n,
{
    if n <= 0 {
        mem
    } else {
        request_sent(requests_sent(mem, ports, target, n - 1), ports, target, n)
    }
}

/// The requests to the NIC that send the ARP requests for `target` on the
/// ports 1 to `n`.
pub open spec fn request_ops(mem: Seq<u8>, ports: Ports, target: [u8; 4], n: int) -> Seq<
    BusOpView,
>
    decreases n,
{
    if n <= 0 {
        Seq::<BusOpView>::empty()
    } else {
        request_ops(mem, ports, target, n - 1).push(
            transmit_of(requests_sent(mem, ports, target, n), 0),
        )
    }
}

impl<const LEN: usize> Router<LEN> {
    /// What handling an ARP miss comes to.
    ///
    /// Where the neighbour cache knows the destination, its entry is
    /// mirrored into the hardware table, and the frame gets the entry's
    /// hardware address and port and is sent. Where it does not, an ARP
    /// request for the destination goes out on each of the ports 1 to 4, and
    /// the cell is given back.
    pub open spec fn arp_miss_handled(&self, bus: &Bus, after: &Self, done: &Bus) -> bool {
        let c = self.rx.ptr;
        let mem = bus.mem();
        let target = arr4(mem.subrange(2048 * c + 34, 2048 * c + 38));
        &&& after.same_routes(self)
        &&& after.rx.ptr == next_cell(c)
        &&& after.ncache.nptr() == self.ncache.nptr()
        &&& match first_match(self.ncache.entries(), target, 16) {
            Some(at) => {
                let e = self.ncache.entries()[at];
                let slot = self.ncache.nhwptr();
                let out = with_state(
                    with_port(with_dest(mem, c, e.mac), c, e.port),
                    c,
                    BufState::Outgoing,
                );
                &&& after.ncache.nhwptr() == (slot + 1) % 8
                &&& after.ncache.entries().len() == 16
                &&& forall|i: int|
                    0 <= i < 16 ==> #[trigger] after.ncache.entries()[i] == (if i == at {
                        NCEntry { hardware_slot: Some(slot as usize), ..self.ncache.entries()[i] }
                    } else if self.ncache.entries()[i].valid
                        && self.ncache.entries()[i].hardware_slot == Some(slot as usize) {
                        NCEntry { hardware_slot: None, ..self.ncache.entries()[i] }
                    } else {
                        self.ncache.entries()[i]
                    })
                &&& done.mem() == out
                &&& done.trace() == (bus.trace() + promote_stores(e, slot as u8)).push(
                    transmit_of(out, c),
                )
            },
            None => {
                &&& after.ncache == self.ncache
                &&& done.mem() == with_state(
                    requests_sent(mem, self.ports, target, 4),
                    c,
                    BufState::Vacant,
                )
                &&& done.trace() == (bus.trace() + request_ops(mem, self.ports, target, 4)).push(
                    BusOpView::Release { cell: c },
                )
            },
        }
    }

    /// Sends the ARP request for `target` from port `i` through the send
    /// cell.
    fn send_request(&mut self, bus: &mut Bus, target: [u8; 4], i: usize)
        requires
            old(self).wf(),
            old(bus).wf(),
            1 <= i < 5,
        ensures
            *final(self) == *old(self),
            final(bus).wf(),
            final(bus).mem() == request_sent(old(bus).mem(), old(self).ports, target, i as int),
            final(bus).trace() == old(bus).trace().push(transmit_of(final(bus).mem(), 0)),
    {
        let arp = ARP {
            htype: crate::data::arp::HType::Eth,
            ptype: EthType::IPv4,
            hlen: 6,
            plen: 4,
            op: Oper::Req,
            sha: self.ports.macs[i],
            spa: self.ports.ips[i],
            tha: [0, 0, 0, 0, 0, 0],
            tpa: target,
        };
        let buf = arp.to_bytes();
        proof {
            assert(buf@ =~= arp_request_bytes(self.ports.macs[i as int], self.ports.ips[i as int], target));
        }
        let snd_data = self.tx.data();
        bus.store(snd_data, buf.as_slice());
        let everyone: [u8; 6] = [255, 255, 255, 255, 255, 255];
        proof {
            assert(everyone@ =~= seq![255u8, 255u8, 255u8, 255u8, 255u8, 255u8]);
            assert(arr6(everyone@) =~= everyone);
        }
        self.tx.write_src(bus, self.ports.macs[i]);
        self.tx.write_dest(bus, everyone);
        self.tx.write_port(bus, i as u8);
        self.tx.write_eth_type(bus, EthType::ARP);
        self.tx.write_payload_len(bus, 28);
        self.tx.send(bus);
    }

    /// Handles the ARP miss in the cell under the receive cursor.
    pub fn handle_arp_miss(&mut self, bus: &mut Bus)
        requires
            old(self).wf(),
            old(bus).wf(),
        ensures
            final(self).wf(),
            final(bus).wf(),
            old(self).arp_miss_handled(old(bus), final(self), final(bus)),
    {
        let ghost mem = bus.mem();
        let ptr = self.rx.data();
        let dest = read4(bus.bytes().as_slice(), ptr + 16);
        match self.ncache.lookup(&dest) {
            Some(idx) => {
                self.ncache.write_hardware(idx, bus);
                let result = *self.ncache.get(idx);
                self.rx.write_dest(bus, result.mac);
                self.rx.write_port(bus, result.port);
                self.rx.send(bus);
            },
            None => {
                let mut i: usize = 1;
                proof {
                    assert(bus.trace() =~= old(bus).trace() + request_ops(
                        mem,
                        self.ports,
                        dest,
                        0,
                    ));
                }
                while i <= 4
                    invariant
                        1 <= i <= 5,
                        *self == *old(self),
                        self.wf(),
                        bus.wf(),
                        bus.mem() == requests_sent(mem, self.ports, dest, i - 1),
                        bus.trace() == old(bus).trace() + request_ops(
                            mem,
                            self.ports,
                            dest,
                            i - 1,
                        ),
                    decreases 5 - i,
                {
                    self.send_request(bus, dest, i);
                    proof {
                        assert(bus.trace() =~= old(bus).trace() + request_ops(
                            mem,
                            self.ports,
                            dest,
                            i as int,
                        ));
                    }
                    i = i + 1;
                }
                self.rx.drop(bus);
            },
        }
    }

    /// What handling a forward miss comes to, where a route covers the
    /// destination.
    ///
    /// The pair of destination and next hop, each with its bytes reversed,
    /// goes into the forwarding cache if there is room for it without
    /// eviction; a destination of all zeros, which the cache cannot hold, is
    /// left out. The cell is given back.
    pub open spec fn forward_miss_handled(
        &self,
        bus: &Bus,
        after: &Self,
        done: &Bus,
        next: IPAddr,
    ) -> bool {
        let c = self.rx.ptr;
        let mem = bus.mem();
        let dest = arr4(mem.subrange(2048 * c + 34, 2048 * c + 38));
        let k = reversed(dest);
        &&& after.ports == self.ports
        &&& after.tx == self.tx
        &&& after.trie == self.trie
        &&& after.root == self.root
        &&& after.ncache == self.ncache
        &&& after.rx.ptr == next_cell(c)
        &&& done.mem() == with_state(mem, c, BufState::Vacant)
        &&& done.trace() == bus.trace().push(BusOpView::Release { cell: c })
        &&& if !is_zero(dest) && (self.cuckoo@.contains_key(k) || self.cuckoo.has_room(k)) {
            &&& after.cuckoo@ == self.cuckoo@.insert(k, reversed(next))
            &&& after.cuckoo.kick() == self.cuckoo.kick()
        } else {
            after.cuckoo == self.cuckoo
        }
    }

    /// The route for the destination of the frame in the cell under the
    /// receive cursor.
    pub open spec fn miss_route(&self, bus: &Bus) -> Option<IPAddr> {
        match self.root {
            Some(_) => route(
                self.trie.rules(),
                arr4(bus.mem().subrange(2048 * self.rx.ptr + 34, 2048 * self.rx.ptr + 38)),
            ),
            None => None,
        }
    }

    /// Handles the forward miss in the cell under the receive cursor.
    /// `false`, with nothing changed, when no route covers the destination.
    pub fn handle_forward_miss(&mut self, bus: &mut Bus) -> (found: bool)
        requires
            old(self).wf(),
            old(bus).wf(),
        ensures
            final(self).wf(),
            final(bus).wf(),
            found == old(self).miss_route(old(bus)) is Some,
            !found ==> *final(self) == *old(self) && *final(bus) == *old(bus),
            found ==> old(self).forward_miss_handled(
                old(bus),
                final(self),
                final(bus),
                old(self).miss_route(old(bus)).unwrap(),
            ),
    {
        let ptr = self.rx.data();
        let dest = read4(bus.bytes().as_slice(), ptr + 16);
        let next = match self.root {
            Some(root) => root.lookup(&self.trie, &dest),
            None => None,
        };
        match next {
            Some(rule) => {
                let k = reverse_ip(&dest);
                let v = reverse_ip(&rule);
                if !key_is_zero(&k) {
                    let _ = self.cuckoo.insert(&k, &v, false);
                }
                self.rx.drop(bus);
                true
            },
            None => false,
        }
    }

    /// What one poll comes to: by the state of the cell under the receive
    /// cursor, and for an incoming frame by its EtherType, one of the
    /// handlers above, or the cell is given back, or nothing is done.
    pub open spec fn polled(&self, bus: &Bus, after: &Self, done: &Bus, step: Step) -> bool {
        let c = self.rx.ptr;
        let mem = bus.mem();
        match crate::buf::state_of(mem[2048 * c + 2047]) {
            Some(BufState::Incoming) => step == Step::Handled && (match crate::buf::eth_type_of(
                le16(mem[2048 * c + 16], mem[2048 * c + 17]),
            ) {
                Some(EthType::ARP) => self.arp_handled(bus, after, done),
                Some(EthType::IPv4) => self.ipv4_handled(bus, after, done),
                None => {
                    &&& after.same_routes(self)
                    &&& after.ncache == self.ncache
                    &&& after.rx.ptr == next_cell(c)
                    &&& done.mem() == with_state(mem, c, BufState::Vacant)
                    &&& done.trace() == bus.trace().push(BusOpView::Release { cell: c })
                },
            }),
            Some(BufState::ForwardMiss) => match self.miss_route(bus) {
                Some(next) => step == Step::Handled && self.forward_miss_handled(
                    bus,
                    after,
                    done,
                    next,
                ),
                None => step == Step::Halt && *after == *self && *done == *bus,
            },
            Some(BufState::ARPMiss) => step == Step::Handled && self.arp_miss_handled(
                bus,
                after,
                done,
            ),
            _ => step == Step::Idle && *after == *self && *done == *bus,
        }
    }

    /// Looks at the cell under the receive cursor and does what its state
    /// asks for.
    pub fn poll(&mut self, bus: &mut Bus) -> (step: Step)
        requires
            old(self).wf(),
            old(bus).wf(),
        ensures
            final(self).wf(),
            final(bus).wf(),
            old(self).polled(old(bus), final(self), final(bus), step),
    {
        match self.rx.probe(bus) {
            Some(BufState::Incoming) => {
                match self.rx.parse(bus) {
                    ParsedBufHandle::ARP(off) => {
                        self.handle_arp(bus, off);
                    },
                    ParsedBufHandle::IPv4(handle, body) => {
                        self.handle_ipv4(bus, handle, body);
                    },
                    ParsedBufHandle::Unknown => {
                        self.rx.drop(bus);
                    },
                }
                Step::Handled
            },
            Some(BufState::ForwardMiss) => {
                if self.handle_forward_miss(bus) {
                    Step::Handled
                } else {
                    Step::Halt
                }
            },
            Some(BufState::ARPMiss) => {
                self.handle_arp_miss(bus);
                Step::Handled
            },
            _ => Step::Idle,
        }
    }
}

/// The requests that give the NIC the address and the hardware address of
/// each of the first `n` ports.
pub open spec fn port_stores(ports: Ports, n: int) -> Seq<BusOpView>
    decreases n,
{
    if n <= 0 {
        Seq::<BusOpView>::empty()
    } else {
        port_stores(ports, n - 1) + cmd_stores(Op::SetIP, (n - 1) as u8, ip_data(ports.ips[n - 1]))
            + cmd_stores(Op::SetMAC, (n - 1) as u8, mac_data(ports.macs[n - 1]))
    }
}

/// Gives the NIC the address and the hardware address of every port.
pub fn configure_ports(ports: &Ports, bus: &mut Bus)
    ensures
        final(bus).wf() == old(bus).wf(),
        final(bus).mem() == old(bus).mem(),
        final(bus).trace() == old(bus).trace() + port_stores(*ports, 5),
{
    let mut vlan: usize = 0;
    proof {
        assert(bus.trace() =~= old(bus).trace() + port_stores(*ports, 0));
    }
    while vlan < PORT_COUNT
        invariant
            0 <= vlan <= 5,
            bus.wf() == old(bus).wf(),
            bus.mem() == old(bus).mem(),
            bus.trace() == old(bus).trace() + port_stores(*ports, vlan as int),
        decreases 5 - vlan,
    {
        Cmd::with_ip(Op::SetIP, vlan as u8, &ports.ips[vlan]).send(bus);
        Cmd::with_mac(Op::SetMAC, vlan as u8, &ports.macs[vlan]).send(bus);
        proof {
            assert(bus.trace() =~= old(bus).trace() + port_stores(*ports, vlan + 1));
        }
        vlan = vlan + 1;
    }
}

/// The rule with the given fields.
pub open spec fn rule_with(prefix: Seq<u8>, len: u8, next: Seq<u8>, if_index: u8) -> Rule {
    Rule { prefix: arr4(prefix), next: arr4(next), len, metric: 0, if_index }
}

/// The rules that the router starts with: the default route, to the
/// broadcast address, and for each of the ports 1 to 4 its own network
/// `192.168.k.0/24`.
pub fn initial_rules() -> (r: Vec<Rule>)
    ensures
        r@.len() == 5,
        rules_valid(r@),
        sorted_by_len(r@),
        r@[0] == rule_with(seq![0u8, 0u8, 0u8, 0u8], 0, seq![255u8, 255u8, 255u8, 255u8], 0),
        forall|k: int|
            0 <= k < 4 ==> #[trigger] r@[k + 1] == rule_with(
                seq![192u8, 168u8, k as u8, 0u8],
                24,
                seq![192u8, 168u8, k as u8, 1u8],
                (k + 1) as u8,
            ),
{
    let mut rules: Vec<Rule> = Vec::new();
    let d = Rule {
        prefix: [0, 0, 0, 0],
        len: 0,
        next: [255, 255, 255, 255],
        metric: 0,
        if_index: 0,
    };
    proof {
        assert(d.prefix@ =~= seq![0u8, 0u8, 0u8, 0u8]);
        assert(arr4(d.prefix@) =~= d.prefix);
        assert(d.next@ =~= seq![255u8, 255u8, 255u8, 255u8]);
        assert(arr4(d.next@) =~= d.next);
    }
    rules.push(d);
    let mut i: u8 = 0;
    while i < 4
        invariant
            0 <= i <= 4,
            rules@.len() == i + 1,
            rules@[0] == rule_with(seq![0u8, 0u8, 0u8, 0u8], 0, seq![255u8, 255u8, 255u8, 255u8], 0),
            forall|k: int|
                0 <= k < i ==> #[trigger] rules@[k + 1] == rule_with(
                    seq![192u8, 168u8, k as u8, 0u8],
                    24,
                    seq![192u8, 168u8, k as u8, 1u8],
                    (k + 1) as u8,
                ),
        decreases 4 - i,
    {
        let r = Rule {
            prefix: [192, 168, i, 0],
            len: 24,
            next: [192, 168, i, 1],
            metric: 0,
            if_index: i + 1,
        };
        proof {
            assert(r.prefix@ =~= seq![192u8, 168u8, i, 0u8]);
            assert(arr4(r.prefix@) =~= r.prefix);
            assert(r.next@ =~= seq![192u8, 168u8, i, 1u8]);
            assert(arr4(r.next@) =~= r.next);
        }
        rules.push(r);
        i = i + 1;
    }
    proof {
        assert forall|a: int, b: int| 0 <= a <= b < rules@.len() implies rules@[a].len
            <= rules@[b].len by {
            if a > 0 {
                assert(rules@[(a - 1) + 1].len == 24);
            }
            if b > 0 {
                assert(rules@[(b - 1) + 1].len == 24);
            }
        }
        assert forall|a: int| 0 <= a < rules@.len() implies (#[trigger] rules@[a]).valid() by {
            if a > 0 {
                assert(rules@[(a - 1) + 1].len == 24);
            }
        }
    }
    rules
}

impl<const LEN: usize> Router<LEN> {
    /// A router with the given ports and the routing trie of `rules`, applied
    /// in the order given; with empty caches; with the receive cursor on cell
    /// 1 and the send cursor on cell 0. Where the arena `store` is too small
    /// for the trie the router has no trie, and every forward miss halts it.
    pub fn new(ports: Ports, store: [Trie; LEN], rules: &[Rule]) -> (r: Self)
        requires
            rules_valid(rules@),
        ensures
            r.wf(),
            r.ports == ports,
            r.rx.ptr == 1,
            r.ncache.nptr() == 0,
            r.ncache.nhwptr() == 0,
            forall|i: int| 0 <= i < 16 ==> !(#[trigger] r.ncache.entries()[i]).valid,
            r.cuckoo@ == Map::<IPAddr, IPAddr>::empty(),
            r.root is Some ==> r.trie.rules() == rules@,
            r.root is Some <==> trie_nodes(rules@).len() <= LEN,
            1 + 15 * rules@.len() <= LEN ==> r.root is Some,
    {
        let mut trie = TrieBuf::new(store);
        let root = Trie::from_rules(&mut trie, rules);
        Router {
            ports,
            rx: rst_buf(),
            tx: snd_buf(),
            ncache: NeighboorCache::default(),
            trie,
            root,
            cuckoo: Cuckoo::new(),
        }
    }

    /// Starts the router: the state of `new` with the standard ports and the
    /// initial rules, and the ports' addresses given to the NIC.
    pub fn boot(store: [Trie; LEN], bus: &mut Bus) -> (r: Self)
        ensures
            r.wf(),
            r.rx.ptr == 1,
            r.cuckoo@ == Map::<IPAddr, IPAddr>::empty(),
            forall|i: int| 0 <= i < 16 ==> !(#[trigger] r.ncache.entries()[i]).valid,
            r.root is Some ==> sorted_by_len(r.trie.rules()) && r.trie.rules().len() == 5
                && r.trie.rules()[0].len == 0,
            76 <= LEN ==> r.root is Some,
            final(bus).wf() == old(bus).wf(),
            final(bus).mem() == old(bus).mem(),
            final(bus).trace() == old(bus).trace() + port_stores(r.ports, 5),
    {
        let ports = Ports::standard();
        let rules = initial_rules();
        let r = Router::new(ports, store, rules.as_slice());
        configure_ports(&r.ports, bus);
        r
    }
}

/// The rules that the routing protocol has installed, and whether they
/// changed since the routing trie was last built from them.
pub struct RuleSet {
    pub rules: Vec<Rule>,
    pub updated: bool,
}

/// The index of the first of the first `n` rules with the prefix and the
/// length of `r`.
pub open spec fn find_rule(rules: Seq<Rule>, r: Rule, n: int) -> Option<int>
    decreases n,
{
    if n <= 0 {
        None
    } else {
        match find_rule(rules, r, n - 1) {
            Some(i) => Some(i),
            None => if rules[n - 1].prefix == r.prefix && rules[n - 1].len == r.len {
                Some(n - 1)
            } else {
                None
            },
        }
    }
}

/// A rule with the key of `r` and none before it is what `find_rule` finds.
pub proof fn lemma_find_rule(rules: Seq<Rule>, r: Rule, i: int, n: int)
    requires
        0 <= i < n,
        rules[i].prefix == r.prefix,
        rules[i].len == r.len,
        find_rule(rules, r, i) is None,
    ensures
        find_rule(rules, r, n) == Some(i),
    decreases n - i,
{
    if n > i + 1 {
        lemma_find_rule(rules, r, i, n - 1);
    }
}

impl RuleSet {
    /// At most 8192 rules, all of them valid.
    pub open spec fn wf(&self) -> bool {
        self.rules@.len() <= RULE_LIMIT && rules_valid(self.rules@)
    }

    /// A rule set with the given rules, marked as changed.
    pub fn new(rules: Vec<Rule>) -> (r: Self)
        ensures
            r.rules == rules,
            r.updated,
    {
        RuleSet { rules, updated: true }
    }
}

/// Installs or removes a rule for the routing protocol. Rules are told apart
/// by prefix and length.
///
/// To install: a rule that is not there is added, unless the set is full;
/// one that is there is replaced if the new metric is lower, and kept
/// otherwise. To remove: the rule, if it is there, is replaced by the last
/// rule of the set, which shrinks by one. The result is `false` where an
/// install changed nothing, `true` otherwise; every change marks the set as
/// changed.
#[allow(non_snake_case)]
pub fn Meow_Update(set: &mut RuleSet, insert: bool, r: Rule) -> (done: bool)
    requires
        old(set).wf(),
        r.valid(),
    ensures
        final(set).wf(),
        match find_rule(old(set).rules@, r, old(set).rules@.len() as int) {
            Some(i) => if insert {
                if r.metric < old(set).rules@[i].metric {
                    &&& done
                    &&& final(set).rules@ == old(set).rules@.update(i, r)
                    &&& final(set).updated
                } else {
                    !done && *final(set) == *old(set)
                }
            } else {
                &&& done
                &&& final(set).rules@ == old(set).rules@.update(
                    i,
                    old(set).rules@.last(),
                ).drop_last()
                &&& final(set).updated
            },
            None => if insert {
                if old(set).rules@.len() < RULE_LIMIT {
                    &&& done
                    &&& final(set).rules@ == old(set).rules@.push(r)
                    &&& final(set).updated
                } else {
                    !done && *final(set) == *old(set)
                }
            } else {
                done && *final(set) == *old(set)
            },
        },
{
    let count = set.rules.len();
    let mut idx: usize = 0;
    while idx < count
        invariant
            0 <= idx <= count,
            count == set.rules@.len(),
            *set == *old(set),
            set.wf(),
            find_rule(set.rules@, r, idx as int) is None,
        decreases count - idx,
    {
        if ip_eq(&set.rules[idx].prefix, &r.prefix) && set.rules[idx].len == r.len {
            proof {
                lemma_find_rule(set.rules@, r, idx as int, count as int);
            }
            if insert {
                if r.metric < set.rules[idx].metric {
                    set.rules.set(idx, r);
                    set.updated = true;
                } else {
                    return false;
                }
            } else {
                let last = set.rules[count - 1];
                set.rules.set(idx, last);
                set.rules.pop();
                set.updated = true;
            }
            return true;
        }
        idx = idx + 1;
    }
    if insert {
        if count >= RULE_LIMIT {
            return false;
        }
        set.rules.push(r);
        set.updated = true;
    }
    true
}

/// The four bytes of a 32-bit number, lowest first.
pub open spec fn word_bytes(ip: u32) -> [u8; 4] {
    arr4(
        seq![
            (ip % 256) as u8,
            ((ip / 256) % 256) as u8,
            ((ip / 65536) % 256) as u8,
            (ip / 16777216) as u8,
        ],
    )
}

/// Looks up the hardware address for `ip`, an address given as the 32-bit
/// number whose bytes, lowest first, are the address's bytes. 0 and the
/// address in `ret` where the neighbour cache knows it; 1, with `ret`
/// untouched, where it does not.
#[allow(non_snake_case)]
pub fn Meow_ArpGetMacAddress(
    ncache: &NeighboorCache,
    if_index: u8,
    ip: u32,
    ret: &mut [u8; 6],
) -> (r: usize)
    ensures
        match first_match(ncache.entries(), word_bytes(ip), 16) {
            Some(i) => r == 0 && *final(ret) == ncache.entries()[i].mac,
            None => r == 1 && *final(ret) == *old(ret),
        },
{
    assert((ip & 0xFF) == ip % 256 && ((ip >> 8) & 0xFF) == (ip / 256) % 256 && ((ip >> 16) & 0xFF)
        == (ip / 65536) % 256 && (ip >> 24) == ip / 16777216 && (ip >> 24) < 256) by (bit_vector);
    let bytes: [u8; 4] = [
        (ip & 0xFF) as u8,
        ((ip >> 8) & 0xFF) as u8,
        ((ip >> 16) & 0xFF) as u8,
        (ip >> 24) as u8,
    ];
    proof {
        assert(bytes@ =~= seq![
            (ip % 256) as u8,
            ((ip / 256) % 256) as u8,
            ((ip / 65536) % 256) as u8,
            (ip / 16777216) as u8,
        ]);
        assert(arr4(bytes@) =~= bytes);
    }
    match ncache.lookup(&bytes) {
        Some(idx) => {
            let result = ncache.get(idx);
            *ret = result.mac;
            0
        },
        None => 1,
    }
}

/// Most bytes of an IP packet that a cell takes.
pub const MAX_PACKET: usize = 2026;

/// Sends the first `length` bytes of `buffer`, an IP packet, from port
/// `if_index` to the hardware address `dst_mac`, through the send cell. 0
/// when the packet was handed to the NIC; 1, with nothing done, for a length
/// beyond the buffer or beyond what a cell takes, or a port that the router
/// does not have.
#[allow(non_snake_case)]
pub fn Meow_SendIPPacket(
    bus: &mut Bus,
    ports: &Ports,
    buffer: &[u8],
    length: usize,
    if_index: u8,
    dst_mac: &[u8; 6],
) -> (r: usize)
    requires
        old(bus).wf(),
    ensures
        final(bus).wf(),
        (r == 0) == (length <= buffer@.len() && length <= MAX_PACKET && if_index < 5),
        r == 0 || r == 1,
        r == 1 ==> *final(bus) == *old(bus),
        r == 0 ==> {
            let out = with_state(
                with_port(
                    with_dest(
                        with_src(
                            with_payload_len(
                                with_data(old(bus).mem(), 0, 0, buffer@.subrange(0, length as int)),
                                0,
                                length as u16,
                            ),
                            0,
                            ports.macs[if_index as int],
                        ),
                        0,
                        *dst_mac,
                    ),
                    0,
                    if_index,
                ),
                0,
                BufState::Outgoing,
            );
            &&& final(bus).mem() == out
            &&& final(bus).trace() == old(bus).trace().push(transmit_of(out, 0))
        },
{
    if length > buffer.len() || length > MAX_PACKET || if_index as usize >= PORT_COUNT {
        return 1;
    }
    let mut buf = snd_buf();
    let ptr = buf.data();
    let mut packet: Vec<u8> = Vec::new();
    let mut i: usize = 0;
    while i < length
        invariant
            0 <= i <= length <= buffer@.len(),
            packet@ == buffer@.subrange(0, i as int),
        decreases length - i,
    {
        packet.push(buffer[i]);
        proof {
            assert(packet@ =~= buffer@.subrange(0, i + 1));
        }
        i = i + 1;
    }
    bus.store(ptr, packet.as_slice());
    buf.write_payload_len(bus, length as u16);
    buf.write_src(bus, ports.macs[if_index as usize]);
    buf.write_dest(bus, *dst_mac);
    buf.write_port(bus, if_index);
    buf.send(bus);
    0
}

/// Every rule of the one sequence is a rule of the other.
pub open spec fn same_rules(a: Seq<Rule>, b: Seq<Rule>) -> bool {
    &&& forall|i: int| 0 <= i < a.len() ==> b.contains(#[trigger] a[i])
    &&& forall|i: int| 0 <= i < b.len() ==> a.contains(#[trigger] b[i])
}

/// How many of the first `n` rules have a prefix shorter than `bound`.
pub open spec fn count_shorter(rules: Seq<Rule>, n: int, bound: int) -> nat
    decreases n,
{
    if n <= 0 {
        0
    } else {
        count_shorter(rules, n - 1, bound) + (if rules[n - 1].len < bound {
            1nat
        } else {
            0nat
        })
    }
}

/// How many of the first `n` rules have a prefix of `len` bits.
pub open spec fn count_of_len(rules: Seq<Rule>, n: int, len: int) -> nat
    decreases n,
{
    if n <= 0 {
        0
    } else {
        count_of_len(rules, n - 1, len) + (if rules[n - 1].len == len {
            1nat
        } else {
            0nat
        })
    }
}

/// The rules shorter than `len + 1` are those shorter than `len` and those
/// of length `len`.
proof fn lemma_count_next(rules: Seq<Rule>, n: int, len: int)
    ensures
        count_shorter(rules, n, len + 1) == count_shorter(rules, n, len) + count_of_len(
            rules,
            n,
            len,
        ),
    decreases n,
{
    if n > 0 {
        lemma_count_next(rules, n - 1, len);
    }
}

/// Every valid rule is shorter than 33 bits, and none is shorter than 0.
proof fn lemma_count_all(rules: Seq<Rule>, n: int)
    requires
        rules_valid(rules),
        0 <= n <= rules.len(),
    ensures
        count_shorter(rules, n, 33) == n,
        count_shorter(rules, n, 0) == 0,
    decreases n,
{
    if n > 0 {
        lemma_count_all(rules, n - 1);
        assert(rules[n - 1].valid());
    }
}

/// The rules in ascending order of prefix length, those of one length in the
/// order in which they stand.
pub fn sorted_rules(rules: &[Rule]) -> (r: Vec<Rule>)
    requires
        rules_valid(rules@),
    ensures
        rules_valid(r@),
        sorted_by_len(r@),
        same_rules(rules@, r@),
        r@.len() == rules@.len(),
{
    let mut out: Vec<Rule> = Vec::new();
    let n = rules.len();
    let mut len: u8 = 0;
    proof {
        lemma_count_all(rules@, n as int);
    }
    while len <= 32
        invariant
            0 <= len <= 33,
            n == rules@.len(),
            rules_valid(rules@),
            rules_valid(out@),
            sorted_by_len(out@),
            out@.len() == count_shorter(rules@, n as int, len as int),
            forall|k: int| 0 <= k < out@.len() ==> (#[trigger] out@[k]).len < len,
            forall|k: int| 0 <= k < out@.len() ==> rules@.contains(#[trigger] out@[k]),
            forall|i: int| 0 <= i < n && rules@[i].len < len ==> out@.contains(#[trigger] rules@[i]),
        decreases 33 - len,
    {
        let mut i: usize = 0;
        let ghost base = out@.len();
        while i < n
            invariant
                0 <= i <= n,
                0 <= len <= 32,
                n == rules@.len(),
                rules_valid(rules@),
                rules_valid(out@),
                sorted_by_len(out@),
                base == count_shorter(rules@, n as int, len as int),
                out@.len() == base + count_of_len(rules@, i as int, len as int),
                forall|k: int| 0 <= k < out@.len() ==> (#[trigger] out@[k]).len <= len,
                forall|k: int| 0 <= k < out@.len() ==> rules@.contains(#[trigger] out@[k]),
                forall|j: int|
                    0 <= j < n && rules@[j].len < len ==> out@.contains(#[trigger] rules@[j]),
                forall|j: int|
                    0 <= j < i && rules@[j].len == len ==> out@.contains(#[trigger] rules@[j]),
            decreases n - i,
        {
            if rules[i].len == len {
                let ghost before = out@;
                out.push(rules[i]);
                proof {
                    let r = rules@[i as int];
                    assert(out@[out@.len() - 1] == r);
                    assert forall|k: int| 0 <= k < before.len() implies out@[k] == before[k] by {
                    }
                    assert forall|a: int, b: int| 0 <= a <= b < out@.len() implies out@[a].len
                        <= out@[b].len by {
                        if b == out@.len() - 1 {
                            if a < b {
                                assert(out@[a] == before[a]);
                            }
                        } else {
                            assert(out@[a] == before[a]);
                            assert(out@[b] == before[b]);
                        }
                    }
                    assert forall|k: int| 0 <= k < out@.len() implies (#[trigger] out@[k]).valid() by {
                        if k < before.len() {
                            assert(out@[k] == before[k]);
                        }
                    }
                    assert forall|k: int| 0 <= k < out@.len() implies rules@.contains(
                        #[trigger] out@[k],
                    ) by {
                        if k < before.len() {
                            assert(out@[k] == before[k]);
                        }
                    }
                    assert forall|j: int|
                        0 <= j < n && (rules@[j].len < len || (j < i + 1 && rules@[j].len
                            == len)) implies out@.contains(#[trigger] rules@[j]) by {
                        if j == i {
                            assert(out@[out@.len() - 1] == rules@[j]);
                        } else {
                            assert(before.contains(rules@[j]));
                            let w = choose|w: int| 0 <= w < before.len() && before[w] == rules@[j];
                            assert(out@[w] == rules@[j]);
                        }
                    }
                }
            }
            i = i + 1;
        }
        proof {
            lemma_count_next(rules@, n as int, len as int);
        }
        len = len + 1;
    }
    proof {
        assert forall|i: int| 0 <= i < rules@.len() implies out@.contains(#[trigger] rules@[i]) by {
            assert(rules@[i].valid());
        }
    }
    out
}

/// The nodes of the trie go by the rules, not by their order.
pub proof fn lemma_same_nodes(a: Seq<Rule>, b: Seq<Rule>)
    requires
        same_rules(a, b),
    ensures
        trie_nodes(a) == trie_nodes(b),
{
    assert forall|x: NodeAddr| wanted(a, x) <==> wanted(b, x) by {
        if wanted(a, x) && x != root_addr() {
            let n = choose|n: int| 0 <= n < a.len() && needs_node(#[trigger] a[n], x);
            assert(b.contains(a[n]));
            let m = choose|m: int| 0 <= m < b.len() && b[m] == a[n];
            assert(needs_node(b[m], x));
        }
        if wanted(b, x) && x != root_addr() {
            let n = choose|n: int| 0 <= n < b.len() && needs_node(#[trigger] b[n], x);
            assert(a.contains(b[n]));
            let m = choose|m: int| 0 <= m < a.len() && a[m] == b[n];
            assert(needs_node(a[m], x));
        }
    }
    assert(trie_nodes(a) =~= trie_nodes(b));
}

/// Longest-prefix match over a rule set. Where `sorted` holds the rules of
/// `rules` in ascending order of length, the trie of `sorted` answers with
/// the next hop of a rule of `rules` that covers the address and is as long
/// as any rule that covers it, and with nothing exactly when no rule of
/// `rules` covers the address.
pub proof fn lemma_longest_of_set(rules: Seq<Rule>, sorted: Seq<Rule>, addr: IPAddr)
    requires
        rules_valid(sorted),
        sorted_by_len(sorted),
        same_rules(rules, sorted),
    ensures
        match route(sorted, addr) {
            Some(next) => exists|i: int|
                0 <= i < rules.len() && (#[trigger] rules[i]).covers(addr) && rules[i].next == next
                    && forall|j: int|
                    0 <= j < rules.len() && (#[trigger] rules[j]).covers(addr) ==> rules[j].len
                        <= rules[i].len,
            None => forall|j: int| 0 <= j < rules.len() ==> !(#[trigger] rules[j]).covers(addr),
        },
{
    lemma_route_is_longest_match(sorted, addr);
    match last_cover(sorted, addr) {
        Some(k) => {
            assert(rules.contains(sorted[k]));
            let i = choose|i: int| 0 <= i < rules.len() && rules[i] == sorted[k];
            assert forall|j: int| 0 <= j < rules.len() && (#[trigger] rules[j]).covers(
                addr,
            ) implies rules[j].len <= rules[i].len by {
                assert(sorted.contains(rules[j]));
                let m = choose|m: int| 0 <= m < sorted.len() && sorted[m] == rules[j];
                assert(sorted[m].covers(addr));
            }
            assert(rules[i].covers(addr) && rules[i].next == route(sorted, addr).unwrap());
        },
        None => {
            assert forall|j: int| 0 <= j < rules.len() implies !(#[trigger] rules[j]).covers(
                addr,
            ) by {
                assert(sorted.contains(rules[j]));
                let m = choose|m: int| 0 <= m < sorted.len() && sorted[m] == rules[j];
                assert(!sorted[m].covers(addr));
            }
        },
    }
}

impl<const LEN: usize> Router<LEN> {
    /// What building the trie anew from the rules of `set` comes to: the
    /// router has a trie exactly when the arena is large enough for it, and
    /// that trie is the one of the rules of `set` in ascending order of
    /// length; nothing else changes.
    pub open spec fn rebuilt(&self, set: &RuleSet, after: &Self) -> bool {
        &&& after.wf()
        &&& after.ports == self.ports
        &&& after.rx == self.rx
        &&& after.tx == self.tx
        &&& after.ncache == self.ncache
        &&& after.cuckoo == self.cuckoo
        &&& after.root is Some <==> trie_nodes(set.rules@).len() <= LEN
        &&& after.root is Some ==> sorted_by_len(after.trie.rules()) && same_rules(
            set.rules@,
            after.trie.rules(),
        )
    }

    /// Builds the routing trie anew from the rules of `set`, brought into
    /// ascending order of length, and marks the set as built. `false` when
    /// the arena is too small for the trie: the router is then without one.
    pub fn rebuild(&mut self, set: &mut RuleSet) -> (ok: bool)
        requires
            old(self).wf(),
            old(set).wf(),
        ensures
            final(set).wf(),
            final(set).rules == old(set).rules,
            !final(set).updated,
            old(self).rebuilt(old(set), final(self)),
            ok == final(self).root is Some,
            1 + 15 * old(set).rules@.len() <= LEN ==> ok,
    {
        let sorted = sorted_rules(set.rules.as_slice());
        proof {
            lemma_same_nodes(set.rules@, sorted@);
        }
        self.root = Trie::from_rules(&mut self.trie, sorted.as_slice());
        set.updated = false;
        self.root.is_some()
    }

    /// One turn of the main loop: where the rules have changed since the
    /// trie was built, the trie is built anew; then the cell under the
    /// receive cursor is polled.
    pub fn turn(&mut self, set: &mut RuleSet, bus: &mut Bus) -> (step: Step)
        requires
            old(self).wf(),
            old(set).wf(),
            old(bus).wf(),
        ensures
            final(self).wf(),
            final(set).wf(),
            final(bus).wf(),
            final(set).rules == old(set).rules,
            !final(set).updated,
            if old(set).updated {
                exists|mid: Self| #[trigger]
                    old(self).rebuilt(old(set), &mid) && mid.polled(
                        old(bus),
                        final(self),
                        final(bus),
                        step,
                    )
            } else {
                old(self).polled(old(bus), final(self), final(bus), step)
            },
    {
        if set.updated {
            self.rebuild(set);
        }
        let ghost mid = *self;
        let step = self.poll(bus);
        proof {
            if old(set).updated {
                assert(old(self).rebuilt(old(set), &mid) && mid.polled(
                    old(bus),
                    self,
                    bus,
                    step,
                ));
            }
        }
        step
    }
}

} // verus!
