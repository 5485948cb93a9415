use meowrouter::bus::{Bus, BusOp};
use meowrouter::cmd::{pack_le, Cmd, Op};

#[test]
fn a_command_is_three_stores() {
    let mut bus = Bus::new();
    Cmd { op: Op::SetMAC, idx: 3, data: [1, 2, 3, 4, 5, 6] }.send(&mut bus);
    let want = vec![
        BusOp::CmdWrite { upper: false, word: 0 },
        BusOp::CmdWrite { upper: true, word: 0x0605_0403 },
        BusOp::CmdWrite { upper: false, word: 0x0201_0302 },
    ];
    assert_eq!(bus.take_trace(), want);
    assert!(bus.take_trace().is_empty());
}

#[test]
fn operation_codes() {
    let ops = [
        Op::Nop,
        Op::SetIP,
        Op::SetMAC,
        Op::WriteNCEntIP,
        Op::WriteNCEntMAC,
        Op::WriteNCEntPort,
        Op::EnableNCEnt,
        Op::DisableNCEnt,
    ];
    for (i, op) in ops.iter().enumerate() {
        assert_eq!(op.code() as usize, i);
    }
}

#[test]
fn addresses_go_in_reversed() {
    let c = Cmd::with_ip(Op::SetIP, 1, &[192, 168, 0, 1]);
    assert_eq!(c.data, [1, 0, 168, 192, 0, 0]);
    let c = Cmd::with_mac(Op::SetMAC, 1, &[0x9c, 0xeb, 0, 0, 0, 1]);
    assert_eq!(c.data, [1, 0, 0, 0, 0xeb, 0x9c]);
    let c = Cmd::with_byte(Op::WriteNCEntPort, 2, 4);
    assert_eq!(c.data, [4, 0, 0, 0, 0, 0]);
    assert_eq!(pack_le(0x11, 0x22, 0x33, 0x44), 0x4433_2211);
}
