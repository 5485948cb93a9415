use meowrouter::buf::{BufHandle, BufState};
use meowrouter::bus::{Bus, BusOp};
use meowrouter::firmware::{
    configure_ports, initial_rules, reverse_ip, sorted_rules, zeroed, Meow_ArpGetMacAddress,
    Meow_SendIPPacket, Meow_Update, Ports, Router, RuleSet, Step,
};
use meowrouter::routing::{Rule, Trie};

const ASKER: [u8; 6] = [0xAA, 0xBB, 0xCC, 0xDD, 0xEE, 0x01];

fn booted() -> (Router<128>, Bus) {
    let mut bus = Bus::new();
    let router = Router::<128>::boot([Trie::default(); 128], &mut bus);
    bus.take_trace();
    (router, bus)
}

/// A cell with an Ethernet header, a payload and a state.
fn cell(dst: [u8; 6], src: [u8; 6], port: u8, eth: [u8; 2], payload: &[u8], state: u8) -> Vec<u8> {
    let mut c = vec![0u8; 2048];
    c[0..6].copy_from_slice(&dst);
    c[6..12].copy_from_slice(&src);
    c[12] = 0x81;
    c[15] = port;
    c[16..18].copy_from_slice(&eth);
    c[18..18 + payload.len()].copy_from_slice(payload);
    let len = (18 + payload.len()) as u16;
    c[2044..2046].copy_from_slice(&len.to_le_bytes());
    c[2047] = state;
    c
}

fn arp(op: u8, sha: [u8; 6], spa: [u8; 4], tha: [u8; 6], tpa: [u8; 4]) -> Vec<u8> {
    let mut p = vec![0x00, 0x01, 0x08, 0x00, 6, 4, 0x00, op];
    p.extend_from_slice(&sha);
    p.extend_from_slice(&spa);
    p.extend_from_slice(&tha);
    p.extend_from_slice(&tpa);
    p
}

fn ip_packet(proto: u8, src: [u8; 4], dst: [u8; 4], payload: &[u8]) -> Vec<u8> {
    let total = (20 + payload.len()) as u16;
    let mut p = vec![0x45, 0];
    p.extend_from_slice(&total.to_be_bytes());
    p.extend_from_slice(&[0, 0, 0, 0, 64, proto, 0, 0]);
    p.extend_from_slice(&src);
    p.extend_from_slice(&dst);
    p.extend_from_slice(payload);
    p
}

fn fold(mut sum: u32) -> u16 {
    while sum >> 16 != 0 {
        sum = (sum & 0xFFFF) + (sum >> 16);
    }
    sum as u16
}

fn image_of(op: &BusOp) -> (u8, &Vec<u8>) {
    match op {
        BusOp::Transmit { cell, image } => (*cell, image),
        other => panic!("{:?}", other),
    }
}

#[test]
fn arp_request_on_port_1_is_answered() {
    let (mut router, mut bus) = booted();
    let req = arp(1, ASKER, [192, 168, 0, 50], [0; 6], [192, 168, 0, 1]);
    assert!(bus.load(1, &cell([0xFF; 6], ASKER, 1, [0x08, 0x06], &req, 1)));
    assert_eq!(router.poll(&mut bus), Step::Handled);
    assert_eq!(router.rx.ptr, 2);
    let ops = bus.take_trace();
    assert_eq!(ops.len(), 1);
    let (c, image) = image_of(&ops[0]);
    assert_eq!(c, 1);
    assert_eq!(&image[0..6], &ASKER);
    assert_eq!(&image[6..12], &[0x9C, 0xEB, 0, 0, 0, 1]);
    assert_eq!(image[15], 1);
    assert_eq!(&image[16..18], &[0x08, 0x06]);
    let want = arp(2, [0x9C, 0xEB, 0, 0, 0, 1], [192, 168, 0, 1], ASKER, [192, 168, 0, 50]);
    assert_eq!(&image[18..46], &want[..]);
    assert_eq!(&image[2044..2046], &[46, 0]);
    assert_eq!(image[2047], 2);
    assert_eq!(&bus.bytes()[2048..4096], &image[..]);
    let at = router.ncache.lookup(&[192, 168, 0, 50]).unwrap();
    assert_eq!(router.ncache.get(at).mac, ASKER);
    assert_eq!(router.ncache.get(at).port, 1);
}

#[test]
fn arp_request_from_a_known_sender_is_answered_without_a_second_entry() {
    let (mut router, mut bus) = booted();
    router.ncache.put([192, 168, 0, 50], [1, 1, 1, 1, 1, 1], 3, &mut bus);
    let req = arp(1, ASKER, [192, 168, 0, 50], [0; 6], [192, 168, 0, 1]);
    bus.load(1, &cell([0xFF; 6], ASKER, 1, [0x08, 0x06], &req, 1));
    assert_eq!(router.poll(&mut bus), Step::Handled);
    assert_eq!(bus.take_trace().len(), 1);
    assert_eq!(router.ncache.lookup(&[192, 168, 0, 50]), Some(0));
    assert_eq!(router.ncache.get(0).mac, [1, 1, 1, 1, 1, 1]);
    assert!(!router.ncache.get(1).valid);
}

#[test]
fn arp_reply_teaches_the_cache_and_is_given_back() {
    let (mut router, mut bus) = booted();
    let rep = arp(2, ASKER, [192, 168, 2, 9], [0x9C, 0xEB, 0, 0, 0, 3], [192, 168, 2, 1]);
    bus.load(1, &cell([0x9C, 0xEB, 0, 0, 0, 3], ASKER, 3, [0x08, 0x06], &rep, 1));
    assert_eq!(router.poll(&mut bus), Step::Handled);
    assert_eq!(bus.take_trace(), vec![BusOp::Release { cell: 1 }]);
    assert_eq!(BufHandle { ptr: 1 }.probe(&bus), Some(BufState::Vacant));
    let at = router.ncache.lookup(&[192, 168, 2, 9]).unwrap();
    assert_eq!(router.ncache.get(at).mac, ASKER);
    assert_eq!(router.ncache.get(at).port, 3);
}

#[test]
fn arp_that_cannot_be_read_is_given_back() {
    let (mut router, mut bus) = booted();
    let mut bad = arp(1, ASKER, [192, 168, 0, 50], [0; 6], [192, 168, 0, 1]);
    bad[7] = 9;
    bus.load(1, &cell([0xFF; 6], ASKER, 1, [0x08, 0x06], &bad, 1));
    assert_eq!(router.poll(&mut bus), Step::Handled);
    assert_eq!(bus.take_trace(), vec![BusOp::Release { cell: 1 }]);
    assert_eq!(router.ncache.lookup(&[192, 168, 0, 50]), None);
    // A request on a port that the router does not have.
    let req = arp(1, ASKER, [192, 168, 0, 50], [0; 6], [192, 168, 0, 1]);
    bus.load(2, &cell([0xFF; 6], ASKER, 5, [0x08, 0x06], &req, 1));
    assert_eq!(router.poll(&mut bus), Step::Handled);
    assert_eq!(bus.take_trace(), vec![BusOp::Release { cell: 2 }]);
    assert_eq!(router.ncache.lookup(&[192, 168, 0, 50]), None);
}

#[test]
fn icmp_echo_request_is_answered() {
    let (mut router, mut bus) = booted();
    // Echo request, identifier 0x1234, sequence 1, no data.
    let echo = [8u8, 0, 0xE5, 0xCA, 0x12, 0x34, 0x00, 0x01];
    let packet = ip_packet(1, [192, 168, 1, 50], [192, 168, 1, 1], &echo);
    assert_eq!(packet.len(), 28);
    bus.load(1, &cell([0x9C, 0xEB, 0, 0, 0, 2], ASKER, 2, [0x08, 0x00], &packet, 1));
    assert_eq!(router.poll(&mut bus), Step::Handled);
    assert_eq!(router.rx.ptr, 2);
    let ops = bus.take_trace();
    assert_eq!(ops.len(), 2);
    assert_eq!(ops[1], BusOp::Release { cell: 1 });
    let (c, image) = image_of(&ops[0]);
    assert_eq!(c, 0);
    assert_eq!(&image[0..6], &ASKER);
    assert_eq!(&image[6..12], &[0x9C, 0xEB, 0, 0, 0, 2]);
    assert_eq!(&image[12..16], &[0x81, 0, 0, 2]);
    assert_eq!(&image[16..18], &[0x08, 0x00]);
    // The IP header: addresses swapped, TTL 64, ICMP, total length 28.
    let ip = &image[18..38];
    assert_eq!(&ip[0..10], &[0x45, 0, 0, 28, 0, 0, 0, 0, 64, 1]);
    assert_eq!(&ip[12..16], &[192, 168, 1, 1]);
    assert_eq!(&ip[16..20], &[192, 168, 1, 50]);
    let mut sum = 0u32;
    for w in 0..10 {
        if w != 5 {
            sum += u16::from_le_bytes([ip[2 * w], ip[2 * w + 1]]) as u32;
        }
    }
    assert_eq!(u16::from_le_bytes([ip[10], ip[11]]), fold(sum));
    assert_eq!(&ip[10..12], &[0x08, 0xA2]);
    // The reply: type 0, code 0, same identifier and sequence.
    let reply = &image[38..46];
    assert_eq!(&reply[0..2], &[0, 0]);
    assert_eq!(&reply[4..8], &[0x12, 0x34, 0x00, 0x01]);
    assert_eq!(u16::from_le_bytes([reply[2], reply[3]]), 0x3412 + 0x0100);
    assert_eq!(&image[2044..2046], &[46, 0]);
    assert_eq!(image[2047], 2);
    assert_eq!(BufHandle { ptr: 1 }.probe(&bus), Some(BufState::Vacant));
}

#[test]
fn icmp_echo_with_data_is_copied_and_summed() {
    let (mut router, mut bus) = booted();
    let mut echo = vec![8u8, 0, 0, 0, 0xFF, 0xFF, 0xFF, 0xFF];
    echo.extend_from_slice(&[0xFF, 0xFF, 0x01, 0x00, 0x99]);
    let packet = ip_packet(1, [192, 168, 1, 50], [192, 168, 1, 1], &echo);
    bus.load(1, &cell([0x9C, 0xEB, 0, 0, 0, 2], ASKER, 2, [0x08, 0x00], &packet, 1));
    assert_eq!(router.poll(&mut bus), Step::Handled);
    let ops = bus.take_trace();
    let (_, image) = image_of(&ops[0]);
    let reply = &image[38..38 + 13];
    assert_eq!(&reply[4..13], &echo[4..13]);
    // 13 bytes: the words up to byte 12 count, the last byte does not.
    assert_eq!(u16::from_le_bytes([reply[2], reply[3]]), fold(0xFFFF + 0xFFFF + 0xFFFF + 0x0001));
    assert_eq!(u16::from_le_bytes([reply[2], reply[3]]), 0x0001);
    assert_eq!(&image[2044..2046], &[18 + 20 + 13, 0]);
    assert_eq!(image[38 + 13], 0);
}

#[test]
fn other_ip_packets_are_given_back() {
    let (mut router, mut bus) = booted();
    // TCP, IGMP, an unknown protocol, an ICMP message that is no echo
    // request, an echo request that is too short, one that is too long.
    let long = vec![8u8; 129];
    let packets = [
        ip_packet(6, [10, 0, 0, 2], [10, 0, 0, 1], &[0; 20]),
        ip_packet(2, [10, 0, 0, 2], [10, 0, 0, 1], &[0; 8]),
        ip_packet(47, [10, 0, 0, 2], [10, 0, 0, 1], &[0; 8]),
        ip_packet(1, [10, 0, 0, 2], [10, 0, 0, 1], &[0, 0, 0, 0, 0, 0, 0, 0]),
        ip_packet(1, [10, 0, 0, 2], [10, 0, 0, 1], &[8, 0, 0, 0, 0, 0, 0]),
        ip_packet(1, [10, 0, 0, 2], [10, 0, 0, 1], &long),
    ];
    for (i, p) in packets.iter().enumerate() {
        let c = (i + 1) as u8;
        bus.load(c, &cell([0x9C, 0xEB, 0, 0, 1, 0], ASKER, 0, [0x08, 0x00], p, 1));
        assert_eq!(router.rx.ptr, c);
        assert_eq!(router.poll(&mut bus), Step::Handled);
        assert_eq!(bus.take_trace(), vec![BusOp::Release { cell: c }], "packet {}", i);
    }
}

#[test]
fn udp_goes_up_to_the_routing_protocol() {
    let (mut router, mut bus) = booted();
    let packet = ip_packet(17, [192, 168, 3, 7], [192, 168, 3, 1], &[1, 2, 3, 4, 5, 6, 7, 8, 9, 10]);
    bus.load(1, &cell([0x9C, 0xEB, 0, 0, 0, 4], ASKER, 4, [0x08, 0x00], &packet, 1));
    assert_eq!(router.poll(&mut bus), Step::Handled);
    assert_eq!(
        bus.take_trace(),
        vec![
            BusOp::Deliver { cell: 1, length: 30, src_mac: ASKER, port: 4 },
            BusOp::Release { cell: 1 },
        ]
    );
}

#[test]
fn unknown_ethertype_is_given_back() {
    let (mut router, mut bus) = booted();
    bus.load(1, &cell([0xFF; 6], ASKER, 1, [0x86, 0xDD], &[0; 40], 1));
    assert_eq!(router.poll(&mut bus), Step::Handled);
    assert_eq!(bus.take_trace(), vec![BusOp::Release { cell: 1 }]);
    assert_eq!(router.rx.ptr, 2);
}

#[test]
fn vacant_and_outgoing_cells_are_left_alone() {
    let (mut router, mut bus) = booted();
    for state in [0u8, 2, 5, 200] {
        bus.load(1, &cell([0xFF; 6], ASKER, 1, [0x08, 0x06], &[0; 28], state));
        let before = bus.bytes().clone();
        assert_eq!(router.poll(&mut bus), Step::Idle);
        assert_eq!(router.rx.ptr, 1);
        assert!(bus.take_trace().is_empty());
        assert_eq!(*bus.bytes(), before);
    }
}

fn rule(prefix: [u8; 4], len: u8, next: [u8; 4]) -> Rule {
    Rule { prefix, next, len, metric: 0, if_index: 0 }
}

#[test]
fn forward_miss_installs_the_route() {
    let rules = [
        rule([0, 0, 0, 0], 0, [255, 255, 255, 255]),
        rule([10, 0, 0, 0], 16, [10, 0, 0, 99]),
        rule([192, 168, 3, 0], 24, [192, 168, 3, 1]),
    ];
    let mut router = Router::<64>::new(Ports::standard(), [Trie::default(); 64], &rules);
    let mut bus = Bus::new();
    let packet = ip_packet(6, [192, 168, 0, 7], [10, 0, 1, 42], &[0; 20]);
    bus.load(1, &cell([0x9C, 0xEB, 0, 0, 0, 1], ASKER, 1, [0x08, 0x00], &packet, 3));
    assert_eq!(router.poll(&mut bus), Step::Handled);
    assert_eq!(bus.take_trace(), vec![BusOp::Release { cell: 1 }]);
    assert_eq!(router.rx.ptr, 2);
    assert_eq!(router.cuckoo.lookup(&[42, 1, 0, 10]), Some([99, 0, 0, 10]));
    assert_eq!(router.cuckoo.lookup(&[10, 0, 1, 42]), None);
    // A second miss to the default route.
    let packet = ip_packet(6, [192, 168, 0, 7], [8, 8, 4, 4], &[0; 20]);
    bus.load(2, &cell([0x9C, 0xEB, 0, 0, 0, 1], ASKER, 1, [0x08, 0x00], &packet, 3));
    assert_eq!(router.poll(&mut bus), Step::Handled);
    assert_eq!(router.cuckoo.lookup(&[4, 4, 8, 8]), Some([255, 255, 255, 255]));
    assert_eq!(reverse_ip(&[1, 2, 3, 4]), [4, 3, 2, 1]);
}

#[test]
fn forward_miss_without_a_route_halts() {
    let rules = [rule([10, 0, 0, 0], 8, [10, 0, 0, 99])];
    let mut router = Router::<64>::new(Ports::standard(), [Trie::default(); 64], &rules);
    let mut bus = Bus::new();
    let packet = ip_packet(6, [192, 168, 0, 7], [11, 0, 1, 42], &[0; 20]);
    bus.load(1, &cell([0x9C, 0xEB, 0, 0, 0, 1], ASKER, 1, [0x08, 0x00], &packet, 3));
    assert_eq!(router.poll(&mut bus), Step::Halt);
    assert_eq!(router.rx.ptr, 1);
    assert!(bus.take_trace().is_empty());
    assert_eq!(BufHandle { ptr: 1 }.probe(&bus), Some(BufState::ForwardMiss));
    // No trie at all: the arena is too small for the rules.
    let mut router = Router::<1>::new(Ports::standard(), [Trie::default(); 1], &rules);
    assert!(router.root.is_none());
    assert_eq!(router.poll(&mut bus), Step::Halt);
}

#[test]
fn forward_miss_to_the_zero_address_installs_nothing() {
    let rules = [rule([0, 0, 0, 0], 0, [1, 1, 1, 1])];
    let mut router = Router::<8>::new(Ports::standard(), [Trie::default(); 8], &rules);
    let mut bus = Bus::new();
    let packet = ip_packet(6, [192, 168, 0, 7], [0, 0, 0, 0], &[0; 20]);
    bus.load(1, &cell([0x9C, 0xEB, 0, 0, 0, 1], ASKER, 1, [0x08, 0x00], &packet, 3));
    assert_eq!(router.poll(&mut bus), Step::Handled);
    assert_eq!(bus.take_trace(), vec![BusOp::Release { cell: 1 }]);
    assert_eq!(router.cuckoo.lookup(&[1, 0, 0, 0]), None);
}

#[test]
fn arp_miss_with_a_known_neighbour_programs_the_hardware_and_sends() {
    let (mut router, mut bus) = booted();
    router.ncache.put([192, 168, 0, 50], ASKER, 1, &mut bus);
    let packet = ip_packet(6, [10, 0, 0, 7], [192, 168, 0, 50], &[0; 20]);
    bus.load(1, &cell([0; 6], [2, 2, 2, 2, 2, 2], 0, [0x08, 0x00], &packet, 4));
    assert_eq!(router.poll(&mut bus), Step::Handled);
    let ops = bus.take_trace();
    assert_eq!(ops.len(), 13);
    let w = |upper: bool, word: u32| BusOp::CmdWrite { upper, word };
    assert_eq!(
        &ops[0..12],
        &[
            w(false, 0),
            w(true, 0x0000_C0A8),
            w(false, 0x0032_0003),
            w(false, 0),
            w(true, 0xAABB_CCDD),
            w(false, 0xEE01_0004),
            w(false, 0),
            w(true, 0),
            w(false, 0x0001_0005),
            w(false, 0),
            w(true, 0),
            w(false, 0x0000_0006),
        ]
    );
    let (c, image) = image_of(&ops[12]);
    assert_eq!(c, 1);
    assert_eq!(&image[0..6], &ASKER);
    assert_eq!(&image[6..12], &[2, 2, 2, 2, 2, 2]);
    assert_eq!(&image[12..16], &[0x81, 0, 0, 1]);
    assert_eq!(&image[18..58], &packet[..]);
    assert_eq!(image[2047], 2);
    assert_eq!(router.ncache.get(0).hardware_slot, Some(0));
    assert_eq!(router.rx.ptr, 2);
}

#[test]
fn arp_miss_with_an_unknown_neighbour_asks_on_every_port() {
    let (mut router, mut bus) = booted();
    let packet = ip_packet(6, [10, 0, 0, 7], [192, 168, 9, 9], &[0; 20]);
    bus.load(1, &cell([0; 6], [2, 2, 2, 2, 2, 2], 0, [0x08, 0x00], &packet, 4));
    assert_eq!(router.poll(&mut bus), Step::Handled);
    let ops = bus.take_trace();
    assert_eq!(ops.len(), 5);
    for i in 1..=4u8 {
        let (c, image) = image_of(&ops[i as usize - 1]);
        assert_eq!(c, 0);
        let mac = [0x9C, 0xEB, 0, 0, 0, i];
        assert_eq!(&image[0..6], &[0xFF; 6]);
        assert_eq!(&image[6..12], &mac);
        assert_eq!(&image[12..16], &[0x81, 0, 0, i]);
        assert_eq!(&image[16..18], &[0x08, 0x06]);
        let want = arp(1, mac, [192, 168, i - 1, 1], [0; 6], [192, 168, 9, 9]);
        assert_eq!(&image[18..46], &want[..]);
        assert_eq!(&image[2044..2046], &[46, 0]);
        assert_eq!(image[2047], 2);
    }
    assert_eq!(ops[4], BusOp::Release { cell: 1 });
    assert_eq!(BufHandle { ptr: 1 }.probe(&bus), Some(BufState::Vacant));
    assert_eq!(router.ncache.lookup(&[192, 168, 9, 9]), None);
    assert_eq!(router.rx.ptr, 2);
}

#[test]
fn boot_gives_the_nic_every_port() {
    let mut bus = Bus::new();
    let router = Router::<128>::boot([Trie::default(); 128], &mut bus);
    assert_eq!(router.rx.ptr, 1);
    assert_eq!(router.tx.ptr, 0);
    let ops = bus.take_trace();
    assert_eq!(ops.len(), 30);
    let w = |upper: bool, word: u32| BusOp::CmdWrite { upper, word };
    // Port 0: SetIP 10.0.0.1, data 1 0 0 10 0 0; SetMAC 9C:EB:00:00:01:00.
    assert_eq!(&ops[0..3], &[w(false, 0), w(true, 0x0000_0A00), w(false, 0x0001_0001)]);
    assert_eq!(&ops[3..6], &[w(false, 0), w(true, 0x9CEB_0000), w(false, 0x0100_0002)]);
    // Port 4: SetIP 192.168.3.1; SetMAC 9C:EB:00:00:00:04.
    assert_eq!(&ops[24..27], &[w(false, 0), w(true, 0x0000_C0A8), w(false, 0x0301_0401)]);
    assert_eq!(&ops[27..30], &[w(false, 0), w(true, 0x9CEB_0000), w(false, 0x0004_0402)]);
    // The initial rules: the ports' networks, and the default route.
    let root = router.root.unwrap();
    assert_eq!(root.lookup(&router.trie, &[192, 168, 2, 77]), Some([192, 168, 2, 1]));
    assert_eq!(root.lookup(&router.trie, &[8, 8, 8, 8]), Some([255, 255, 255, 255]));
    let rules = initial_rules();
    assert_eq!(rules.len(), 5);
    assert_eq!(rules[0].len, 0);
    assert_eq!(rules[4].prefix, [192, 168, 3, 0]);
    assert_eq!(rules[4].if_index, 4);
    let mut again = Bus::new();
    configure_ports(&router.ports, &mut again);
    assert_eq!(again.take_trace(), ops);
    assert_eq!(zeroed(3), vec![0, 0, 0]);
}

#[test]
fn the_cursor_comes_back_to_cell_1_after_cell_7() {
    let (mut router, mut bus) = booted();
    for c in 1..=7u8 {
        bus.load(c, &cell([0xFF; 6], ASKER, 1, [0x12, 0x34], &[0; 4], 1));
    }
    for c in 1..=7u8 {
        assert_eq!(router.rx.ptr, c);
        assert_eq!(router.poll(&mut bus), Step::Handled);
    }
    assert_eq!(router.rx.ptr, 1);
    assert_eq!(router.poll(&mut bus), Step::Idle);
}

#[test]
fn rule_updates() {
    let mut set = RuleSet::new(Vec::new());
    set.updated = false;
    let a = Rule { prefix: [10, 0, 0, 0], next: [1, 1, 1, 1], len: 8, metric: 5, if_index: 1 };
    assert!(Meow_Update(&mut set, true, a));
    assert!(set.updated);
    assert_eq!(set.rules.len(), 1);
    // The same key with a metric that is not lower changes nothing.
    set.updated = false;
    let worse = Rule { next: [2, 2, 2, 2], metric: 5, ..a };
    assert!(!Meow_Update(&mut set, true, worse));
    assert!(!set.updated);
    assert_eq!(set.rules[0].next, [1, 1, 1, 1]);
    // With a lower metric it replaces the rule.
    let better = Rule { next: [3, 3, 3, 3], metric: 4, ..a };
    assert!(Meow_Update(&mut set, true, better));
    assert!(set.updated);
    assert_eq!(set.rules.len(), 1);
    assert_eq!(set.rules[0].next, [3, 3, 3, 3]);
    // Another length is another key.
    let b = Rule { len: 9, ..a };
    let c = Rule { prefix: [11, 0, 0, 0], ..a };
    assert!(Meow_Update(&mut set, true, b));
    assert!(Meow_Update(&mut set, true, c));
    assert_eq!(set.rules.len(), 3);
    // Removing the first rule moves the last into its place.
    set.updated = false;
    assert!(Meow_Update(&mut set, false, a));
    assert!(set.updated);
    assert_eq!(set.rules.len(), 2);
    assert_eq!(set.rules[0].prefix, [11, 0, 0, 0]);
    assert_eq!(set.rules[1].len, 9);
    // Removing what is not there changes nothing.
    set.updated = false;
    assert!(Meow_Update(&mut set, false, a));
    assert!(!set.updated);
    assert_eq!(set.rules.len(), 2);
}

#[test]
fn a_full_rule_set_takes_no_more() {
    let mut rules = Vec::new();
    for i in 0..8192u32 {
        rules.push(Rule { prefix: i.to_be_bytes(), next: [1, 1, 1, 1], len: 32, metric: 1, if_index: 0 });
    }
    let mut set = RuleSet::new(rules);
    set.updated = false;
    let extra = Rule { prefix: [9, 9, 9, 9], next: [1, 1, 1, 1], len: 32, metric: 1, if_index: 0 };
    assert!(!Meow_Update(&mut set, true, extra));
    assert!(!set.updated);
    assert_eq!(set.rules.len(), 8192);
    let gone = set.rules[17];
    assert!(Meow_Update(&mut set, false, gone));
    assert!(Meow_Update(&mut set, true, extra));
    assert_eq!(set.rules.len(), 8192);
}

#[test]
fn hardware_address_for_the_routing_protocol() {
    let (mut router, mut bus) = booted();
    router.ncache.put([192, 168, 0, 50], ASKER, 1, &mut bus);
    let mut mac = [9u8; 6];
    let ip = u32::from_le_bytes([192, 168, 0, 50]);
    assert_eq!(Meow_ArpGetMacAddress(&router.ncache, 1, ip, &mut mac), 0);
    assert_eq!(mac, ASKER);
    let mut mac = [9u8; 6];
    let ip = u32::from_le_bytes([192, 168, 0, 51]);
    assert_eq!(Meow_ArpGetMacAddress(&router.ncache, 1, ip, &mut mac), 1);
    assert_eq!(mac, [9u8; 6]);
}

#[test]
fn packets_of_the_routing_protocol_go_out_through_the_send_cell() {
    let (router, mut bus) = booted();
    let packet = ip_packet(17, [192, 168, 1, 1], [224, 0, 0, 9], &[7; 24]);
    assert_eq!(Meow_SendIPPacket(&mut bus, &router.ports, &packet, 44, 2, &[1, 0, 0x5E, 0, 0, 9]), 0);
    let ops = bus.take_trace();
    assert_eq!(ops.len(), 1);
    let (c, image) = image_of(&ops[0]);
    assert_eq!(c, 0);
    assert_eq!(&image[0..6], &[1, 0, 0x5E, 0, 0, 9]);
    assert_eq!(&image[6..12], &[0x9C, 0xEB, 0, 0, 0, 2]);
    assert_eq!(&image[12..16], &[0x81, 0, 0, 2]);
    assert_eq!(&image[18..62], &packet[..]);
    assert_eq!(&image[2044..2046], &[62, 0]);
    assert_eq!(image[2047], 2);
    // Refused: longer than the buffer, longer than a cell, no such port.
    assert_eq!(Meow_SendIPPacket(&mut bus, &router.ports, &packet, 45, 2, &[1; 6]), 1);
    let big = vec![0u8; 2027];
    assert_eq!(Meow_SendIPPacket(&mut bus, &router.ports, &big, 2027, 2, &[1; 6]), 1);
    assert_eq!(Meow_SendIPPacket(&mut bus, &router.ports, &packet, 44, 5, &[1; 6]), 1);
    assert!(bus.take_trace().is_empty());
    assert_eq!(Meow_SendIPPacket(&mut bus, &router.ports, &big, 2026, 4, &[1; 6]), 0);
    assert_eq!(bus.take_trace().len(), 1);
}

#[test]
fn rules_are_sorted_by_length_and_kept_in_order() {
    let rules = [
        Rule { prefix: [10, 0, 1, 0], next: [1, 0, 0, 0], len: 24, metric: 0, if_index: 0 },
        Rule { prefix: [10, 0, 0, 0], next: [2, 0, 0, 0], len: 16, metric: 0, if_index: 0 },
        Rule { prefix: [10, 0, 2, 0], next: [3, 0, 0, 0], len: 24, metric: 0, if_index: 0 },
        Rule { prefix: [0, 0, 0, 0], next: [4, 0, 0, 0], len: 0, metric: 0, if_index: 0 },
        Rule { prefix: [10, 0, 1, 7], next: [5, 0, 0, 0], len: 32, metric: 0, if_index: 0 },
    ];
    let sorted = sorted_rules(&rules);
    let nexts: Vec<u8> = sorted.iter().map(|r| r.next[0]).collect();
    assert_eq!(nexts, vec![4, 2, 1, 3, 5]);
    assert!(sorted_rules(&[]).is_empty());
}

#[test]
fn rebuild_follows_the_rule_set() {
    let (mut router, mut bus) = booted();
    let mut set = RuleSet::new(initial_rules());
    let longer = Rule { prefix: [10, 9, 0, 0], next: [10, 9, 0, 1], len: 16, metric: 1, if_index: 2 };
    let longest = Rule { prefix: [10, 9, 8, 7], next: [10, 9, 8, 1], len: 32, metric: 1, if_index: 2 };
    // The longer prefix goes in first: the trie still answers with the
    // longest match.
    assert!(Meow_Update(&mut set, true, longest));
    assert!(Meow_Update(&mut set, true, longer));
    assert!(set.updated);
    assert!(router.rebuild(&mut set));
    assert!(!set.updated);
    assert_eq!(set.rules.len(), 7);
    let root = router.root.unwrap();
    assert_eq!(root.lookup(&router.trie, &[10, 9, 8, 7]), Some([10, 9, 8, 1]));
    assert_eq!(root.lookup(&router.trie, &[10, 9, 8, 6]), Some([10, 9, 0, 1]));
    assert_eq!(root.lookup(&router.trie, &[10, 8, 8, 6]), Some([255, 255, 255, 255]));
    assert_eq!(root.lookup(&router.trie, &[192, 168, 1, 6]), Some([192, 168, 1, 1]));
    // A removed rule is gone after the next rebuild.
    assert!(Meow_Update(&mut set, false, longer));
    assert!(router.rebuild(&mut set));
    let root = router.root.unwrap();
    assert_eq!(root.lookup(&router.trie, &[10, 9, 8, 6]), Some([255, 255, 255, 255]));
    // The forward miss goes by the new trie.
    let packet = ip_packet(6, [192, 168, 0, 7], [10, 9, 8, 7], &[0; 20]);
    bus.load(1, &cell([0x9C, 0xEB, 0, 0, 0, 1], ASKER, 1, [0x08, 0x00], &packet, 3));
    assert_eq!(router.poll(&mut bus), Step::Handled);
    assert_eq!(router.cuckoo.lookup(&[7, 8, 9, 10]), Some([1, 8, 9, 10]));
}

#[test]
fn rebuild_in_an_arena_that_is_too_small_leaves_no_trie() {
    let mut router = Router::<4>::new(Ports::standard(), [Trie::default(); 4], &[]);
    assert!(router.root.is_some());
    let mut set = RuleSet::new(initial_rules());
    assert!(!router.rebuild(&mut set));
    assert!(router.root.is_none());
    assert!(!set.updated);
}

#[test]
fn a_turn_builds_the_trie_anew_before_it_polls() {
    let (mut router, mut bus) = booted();
    let mut set = RuleSet::new(initial_rules());
    set.updated = false;
    let host = Rule { prefix: [10, 9, 8, 7], next: [10, 9, 8, 1], len: 32, metric: 1, if_index: 2 };
    assert!(Meow_Update(&mut set, true, host));
    let packet = ip_packet(6, [192, 168, 0, 7], [10, 9, 8, 7], &[0; 20]);
    bus.load(1, &cell([0x9C, 0xEB, 0, 0, 0, 1], ASKER, 1, [0x08, 0x00], &packet, 3));
    assert_eq!(router.turn(&mut set, &mut bus), Step::Handled);
    assert!(!set.updated);
    assert_eq!(router.cuckoo.lookup(&[7, 8, 9, 10]), Some([1, 8, 9, 10]));
    // Without a change the trie stays as it is.
    assert_eq!(router.turn(&mut set, &mut bus), Step::Idle);
}
