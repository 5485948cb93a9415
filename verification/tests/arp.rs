use meowrouter::buf::EthType;
use meowrouter::data::arp::{HType, Oper, ARP};

#[test]
fn arp_bytes_round_trip() {
    let bytes: Vec<u8> = vec![
        0x00, 0x01, 0x08, 0x00, 6, 4, 0x00, 0x01, 0xAA, 0xBB, 0xCC, 0xDD, 0xEE, 0x01, 192, 168, 0,
        50, 0, 0, 0, 0, 0, 0, 192, 168, 0, 1,
    ];
    let mut mem = vec![0xFFu8; 3];
    mem.extend_from_slice(&bytes);
    let p = ARP::parse(&mem, 3).unwrap();
    assert_eq!(p.htype, HType::Eth);
    assert_eq!(p.ptype, EthType::IPv4);
    assert_eq!((p.hlen, p.plen), (6, 4));
    assert_eq!(p.op, Oper::Req);
    assert_eq!(p.sha, [0xAA, 0xBB, 0xCC, 0xDD, 0xEE, 0x01]);
    assert_eq!(p.spa, [192, 168, 0, 50]);
    assert_eq!(p.tha, [0; 6]);
    assert_eq!(p.tpa, [192, 168, 0, 1]);
    assert_eq!(p.to_bytes(), bytes);
}

#[test]
fn arp_with_unknown_fields_is_not_read() {
    let good: Vec<u8> = vec![
        0x00, 0x01, 0x08, 0x00, 6, 4, 0x00, 0x02, 1, 2, 3, 4, 5, 6, 10, 0, 0, 1, 6, 5, 4, 3, 2, 1,
        10, 0, 0, 2,
    ];
    assert_eq!(ARP::parse(&good, 0).unwrap().op, Oper::Reply);
    for (at, v) in [(1usize, 6u8), (0, 1), (2, 0x86), (7, 3), (6, 1)] {
        let mut bad = good.clone();
        bad[at] = v;
        assert!(ARP::parse(&bad, 0).is_none(), "byte {}", at);
    }
    assert_eq!(Oper::Req.code(), 0x0100);
    assert_eq!(Oper::Reply.code(), 0x0200);
    assert_eq!(HType::Eth.code(), 0x0100);
    assert_eq!(EthType::ARP.code(), 0x0608);
    assert_eq!(EthType::IPv4.code(), 0x0008);
}
