use meowrouter::buf::{
    fold16, join16, rst_buf, snd_buf, split16, BufHandle, BufState, EthType, ICMPHeader,
    ICMPType, IPProto, IPv4Handle, ParsedBufHandle,
};
use meowrouter::bus::{Bus, BusOp};

fn ring_with(cell: u8, image: &[u8]) -> Bus {
    let mut bus = Bus::new();
    let mut full = vec![0u8; 2048];
    full[..image.len()].copy_from_slice(image);
    assert!(bus.load(cell, &full));
    bus
}

#[test]
fn drop_leaves_the_cell_vacant() {
    for c in 1..8u8 {
        let mut image = vec![0u8; 2048];
        image[2047] = 1;
        let mut bus = ring_with(c, &image);
        let mut h = BufHandle { ptr: c };
        assert_eq!(h.probe(&bus), Some(BufState::Incoming));
        h.drop(&mut bus);
        assert_eq!(BufHandle { ptr: c }.probe(&bus), Some(BufState::Vacant));
        assert_eq!(h.ptr, if c == 7 { 1 } else { c + 1 });
        assert_eq!(bus.take_trace(), vec![BusOp::Release { cell: c }]);
    }
}

#[test]
fn send_marks_outgoing_and_the_nic_gives_the_cell_back() {
    let mut bus = Bus::new();
    let mut tx = snd_buf();
    tx.write_dest(&mut bus, [1, 2, 3, 4, 5, 6]);
    tx.send(&mut bus);
    assert_eq!(tx.ptr, 0);
    assert_eq!(tx.probe(&bus), Some(BufState::Outgoing));
    let ops = bus.take_trace();
    assert_eq!(ops.len(), 1);
    match &ops[0] {
        BusOp::Transmit { cell, image } => {
            assert_eq!(*cell, 0);
            assert_eq!(image.len(), 2048);
            assert_eq!(&image[0..6], &[1, 2, 3, 4, 5, 6]);
            assert_eq!(image[2047], 2);
        },
        other => panic!("{:?}", other),
    }
    // The NIC has sent the frame: it marks the cell vacant.
    bus.write(2047, 0);
    assert_eq!(tx.probe(&bus), Some(BufState::Vacant));
}

#[test]
fn the_receive_cursor_goes_round_the_cells_1_to_7() {
    let mut h = rst_buf();
    let mut seen = Vec::new();
    for _ in 0..15 {
        seen.push(h.ptr);
        h.step();
    }
    assert_eq!(seen, vec![1, 2, 3, 4, 5, 6, 7, 1, 2, 3, 4, 5, 6, 7, 1]);
    let mut tx = snd_buf();
    tx.step();
    assert_eq!(tx.ptr, 0);
}

#[test]
fn state_bytes() {
    let states = [
        BufState::Vacant,
        BufState::Incoming,
        BufState::Outgoing,
        BufState::ForwardMiss,
        BufState::ARPMiss,
    ];
    for (i, s) in states.iter().enumerate() {
        assert_eq!(s.code() as usize, i);
        assert_eq!(BufState::from_byte(i as u8), Some(*s));
    }
    assert_eq!(BufState::from_byte(5), None);
    assert_eq!(BufState::from_byte(255), None);
    let mut image = vec![0u8; 2048];
    image[2047] = 9;
    let bus = ring_with(3, &image);
    assert_eq!(BufHandle { ptr: 3 }.probe(&bus), None);
}

#[test]
fn state_names() {
    let mut out = Vec::new();
    BufState::Vacant.hprint(&mut out);
    BufState::ARPMiss.hprint(&mut out);
    assert_eq!(out, b"Vacant\n\rARPMiss\n\r".to_vec());
    let mut out = Vec::new();
    BufState::Incoming.hprint(&mut out);
    BufState::Outgoing.hprint(&mut out);
    BufState::ForwardMiss.hprint(&mut out);
    assert_eq!(out, b"Incoming\n\rOutgoing\n\rForwardMiss\n\r".to_vec());
}

#[test]
fn fields_sit_at_their_offsets() {
    let mut image = vec![0u8; 2048];
    for i in 0..18 {
        image[i] = 0x10 + i as u8;
    }
    image[2044] = 0x2E;
    image[2045] = 0x01;
    let bus = ring_with(2, &image);
    let mut h = BufHandle { ptr: 2 };
    assert_eq!(h.dest(&bus), [0x10, 0x11, 0x12, 0x13, 0x14, 0x15]);
    assert_eq!(h.src(&bus), [0x16, 0x17, 0x18, 0x19, 0x1A, 0x1B]);
    assert_eq!(h.port(&bus), 0x1F);
    assert_eq!(h.frame_len(&bus), 0x012E);
    assert_eq!(h.payload_len(&bus), 0x012E - 18);
    assert_eq!(h.data(), 2 * 2048 + 18);
    assert_eq!(h.eth_type(&bus), None);
}

#[test]
fn writers_fill_the_fields() {
    let mut bus = Bus::new();
    let mut h = BufHandle { ptr: 5 };
    h.write_dest(&mut bus, [1, 2, 3, 4, 5, 6]);
    h.write_src(&mut bus, [7, 8, 9, 10, 11, 12]);
    h.write_port(&mut bus, 3);
    h.write_eth_type(&mut bus, EthType::ARP);
    h.write_payload_len(&mut bus, 28);
    let base = 5 * 2048;
    let m = bus.bytes();
    assert_eq!(&m[base..base + 18], &[1, 2, 3, 4, 5, 6, 7, 8, 9, 10, 11, 12, 0x81, 0, 0, 3, 0x08, 0x06]);
    assert_eq!(&m[base + 2044..base + 2046], &[46, 0]);
    assert!(m[..base].iter().all(|b| *b == 0));
    assert!(m[base + 18..base + 2044].iter().all(|b| *b == 0));
    assert_eq!(h.eth_type(&bus), Some(EthType::ARP));
    h.write_eth_type(&mut bus, EthType::IPv4);
    assert_eq!(&bus.bytes()[base + 16..base + 18], &[0x08, 0x00]);
    assert_eq!(h.payload_len(&bus), 28);
    assert!(bus.take_trace().is_empty());
}

#[test]
fn parse_tells_by_the_ethertype() {
    let mut image = vec![0u8; 2048];
    image[16] = 0x08;
    image[17] = 0x06;
    let bus = ring_with(1, &image);
    assert_eq!(BufHandle { ptr: 1 }.parse(&bus), ParsedBufHandle::ARP(2048 + 18));
    image[17] = 0x00;
    let bus = ring_with(4, &image);
    assert_eq!(
        BufHandle { ptr: 4 }.parse(&bus),
        ParsedBufHandle::IPv4(IPv4Handle { ptr: 4 * 2048 + 18 }, 4 * 2048 + 38)
    );
    image[16] = 0x86;
    image[17] = 0xDD;
    let bus = ring_with(4, &image);
    assert_eq!(BufHandle { ptr: 4 }.parse(&bus), ParsedBufHandle::Unknown);
}

#[test]
fn a_short_frame_has_no_payload() {
    let mut image = vec![0u8; 2048];
    image[2044] = 17;
    let bus = ring_with(1, &image);
    assert_eq!(BufHandle { ptr: 1 }.payload_len(&bus), 0);
    image[2044] = 18;
    let bus = ring_with(1, &image);
    assert_eq!(BufHandle { ptr: 1 }.payload_len(&bus), 0);
    image[2044] = 19;
    let bus = ring_with(1, &image);
    assert_eq!(BufHandle { ptr: 1 }.payload_len(&bus), 1);
}

#[test]
fn dump_shows_sixteen_bytes_a_line() {
    let mut image = vec![0u8; 2048];
    for i in 0..18 {
        image[i] = i as u8;
    }
    image[2044] = 18;
    let bus = ring_with(1, &image);
    let mut out = Vec::new();
    BufHandle { ptr: 1 }.dump(&bus, &mut out);
    assert_eq!(
        String::from_utf8(out).unwrap(),
        "00 01 02 03 04 05 06 07 08 09 0A 0B 0C 0D 0E 0F \n\r10 11 \n\r"
    );
    image[2044] = 16;
    let bus = ring_with(1, &image);
    let mut out = Vec::new();
    BufHandle { ptr: 1 }.dump(&bus, &mut out);
    assert_eq!(
        String::from_utf8(out).unwrap(),
        "00 01 02 03 04 05 06 07 08 09 0A 0B 0C 0D 0E 0F \n\r"
    );
    image[2044] = 0;
    let bus = ring_with(1, &image);
    let mut out = Vec::new();
    BufHandle { ptr: 1 }.dump(&bus, &mut out);
    assert!(out.is_empty());
    // A length beyond the cell is cut to the cell: 2048 bytes, 128 lines.
    image[2044] = 0xFF;
    image[2045] = 0xFF;
    let bus = ring_with(1, &image);
    let mut out = Vec::new();
    BufHandle { ptr: 1 }.dump(&bus, &mut out);
    assert_eq!(out.len(), 2048 * 3 + 128 * 2);
}

#[test]
fn load_takes_whole_cells_only() {
    let mut bus = Bus::new();
    assert!(!bus.load(8, &vec![1u8; 2048]));
    assert!(!bus.load(0, &vec![1u8; 2047]));
    assert!(!bus.load(0, &vec![1u8; 2049]));
    assert!(bus.bytes().iter().all(|b| *b == 0));
    assert!(bus.load(7, &vec![1u8; 2048]));
    assert_eq!(bus.bytes().len(), 16384);
    assert!(bus.bytes()[..7 * 2048].iter().all(|b| *b == 0));
    assert!(bus.bytes()[7 * 2048..].iter().all(|b| *b == 1));
    bus.store(3, &[9, 8, 7]);
    assert_eq!(&bus.bytes()[0..7], &[0, 0, 0, 9, 8, 7, 0]);
    assert_eq!(bus.read(4), 8);
}

#[test]
fn words_and_folding() {
    assert_eq!(join16(0x34, 0x12), 0x1234);
    assert_eq!(split16(0x1234), (0x34, 0x12));
    assert_eq!(fold16(0), 0);
    assert_eq!(fold16(0xFFFF), 0xFFFF);
    assert_eq!(fold16(0x1_0000), 1);
    assert_eq!(fold16(0x1_2345), 0x2346);
    assert_eq!(fold16(0x1_FFFF), 1);
    assert_eq!(fold16(0xFFFF_FFFF), 0xFFFF);
}

#[test]
fn ipv4_header_fields() {
    let mut mem = vec![0u8; 40];
    let hdr = [
        0x45, 0x00, 0x00, 0x1C, 0x12, 0x34, 0x00, 0x00, 0x40, 0x01, 0xAA, 0xBB, 192, 168, 1, 50, 192,
        168, 1, 1,
    ];
    mem[10..30].copy_from_slice(&hdr);
    let (h, payload) = IPv4Handle::allocate(10);
    assert_eq!(payload, 30);
    assert_eq!(h.proto(&mem), Some(IPProto::ICMP));
    assert_eq!(h.src(&mem), [192, 168, 1, 50]);
    assert_eq!(h.dest(&mem), [192, 168, 1, 1]);
    assert_eq!(h.payload_len(&mem), Some(8));
    mem[19] = 0x11;
    assert_eq!(h.proto(&mem), Some(IPProto::UDP));
    mem[19] = 0x06;
    assert_eq!(h.proto(&mem), Some(IPProto::TCP));
    mem[19] = 0x02;
    assert_eq!(h.proto(&mem), Some(IPProto::IGMP));
    mem[19] = 0x59;
    assert_eq!(h.proto(&mem), None);
    mem[13] = 19;
    assert_eq!(h.payload_len(&mem), None);
    mem[13] = 20;
    assert_eq!(h.payload_len(&mem), Some(0));
}

#[test]
fn ipv4_checksum_is_the_folded_sum_of_the_other_words() {
    let mut mem = vec![
        0x45, 0x00, 0x00, 0x1C, 0x00, 0x00, 0x00, 0x00, 0x40, 0x01, 0xEE, 0xEE, 192, 168, 1, 1, 192,
        168, 1, 50,
    ];
    let (mut h, _) = IPv4Handle::allocate(0);
    h.fill_chksum(&mut mem);
    // Words, low byte first: 0045 1C00 0000 0000 0140 A8C0 0101 A8C0 3201
    let sum: u32 = 0x0045 + 0x1C00 + 0x0140 + 0xA8C0 + 0x0101 + 0xA8C0 + 0x3201;
    assert_eq!(sum, 0x1_A207);
    assert_eq!(&mem[10..12], &[0x08, 0xA2]);
    assert_eq!(&mem[0..10], &[0x45, 0x00, 0x00, 0x1C, 0x00, 0x00, 0x00, 0x00, 0x40, 0x01]);
}

#[test]
fn outgoing_header() {
    let mut mem = vec![0u8; 24];
    let (mut h, _) = IPv4Handle::allocate(2);
    h.outgoing(&mut mem, IPProto::ICMP, 8, [192, 168, 1, 1], [192, 168, 1, 50]);
    assert_eq!(
        mem,
        vec![
            0, 0, 0x45, 0x00, 0x00, 0x1C, 0x00, 0x00, 0x00, 0x00, 0x40, 0x01, 0x08, 0xA2, 192, 168,
            1, 1, 192, 168, 1, 50, 0, 0
        ]
    );
}

#[test]
fn icmp_checksum() {
    let mut m = ICMPHeader::<4> {
        kind: ICMPType::EchoRequest,
        code: 3,
        chksum: 0xDEAD,
        rest: [0x3412, 0x0100],
        body: [0x1111, 0x2222, 0xFFFF, 0x0003],
    };
    // Twelve bytes: two words of body count.
    m.fill_chksum(12);
    assert_eq!(m.chksum, 0x7048);
    // Eight bytes: no body.
    m.fill_chksum(8);
    assert_eq!(m.chksum, 0x3D15);
    // An odd length leaves the last byte out.
    m.fill_chksum(11);
    assert_eq!(m.chksum, 0x4E26);
    // What goes beyond 16 bits comes back in at the low end.
    m.fill_chksum(16);
    assert_eq!(m.chksum, 0x704B);
    assert_eq!(m.kind, ICMPType::EchoRequest);
    assert_eq!(m.rest, [0x3412, 0x0100]);
}

#[test]
fn icmp_bytes_round_trip() {
    let bytes: Vec<u8> = vec![8, 0, 0xAA, 0xBB, 0x12, 0x34, 0x00, 0x01, 1, 2, 3, 4];
    let m = ICMPHeader::<2>::parse(&bytes, 0).unwrap();
    assert_eq!(m.kind, ICMPType::EchoRequest);
    assert_eq!(m.code, 0);
    assert_eq!(m.chksum, 0xBBAA);
    assert_eq!(m.rest, [0x3412, 0x0100]);
    assert_eq!(m.body, [0x0201, 0x0403]);
    assert_eq!(m.to_bytes(), bytes);
    let mut unknown = bytes.clone();
    unknown[0] = 1;
    assert!(ICMPHeader::<2>::parse(&unknown, 0).is_none());
    let kinds = [0u8, 3, 5, 8, 9, 10, 11, 12, 13, 14];
    for k in kinds {
        assert_eq!(ICMPType::from_byte(k).unwrap().code(), k);
    }
}
