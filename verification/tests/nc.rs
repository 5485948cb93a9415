use meowrouter::bus::{Bus, BusOp};
use meowrouter::nc::NeighboorCache;

fn hw_count(nc: &NeighboorCache) -> usize {
    (0..16).filter(|i| nc.get(*i).hardware_slot.is_some()).count()
}

#[test]
fn fifo_after_seventeen_puts() {
    let mut bus = Bus::new();
    let mut nc = NeighboorCache::default();
    for i in 0..17u8 {
        nc.put([10, 0, 0, i + 1], [2, 0, 0, 0, 0, i + 1], i % 5, &mut bus);
    }
    assert_eq!(nc.lookup(&[10, 0, 0, 1]), None);
    for i in 1..17u8 {
        let at = nc.lookup(&[10, 0, 0, i + 1]).unwrap();
        assert_eq!(nc.get(at).mac, [2, 0, 0, 0, 0, i + 1]);
        assert_eq!(nc.get(at).port, i % 5);
    }
    // The seventeenth went where the first was.
    assert_eq!(nc.lookup(&[10, 0, 0, 17]), Some(0));
    assert!(bus.take_trace().is_empty());
}

#[test]
fn hardware_slots_go_round_robin() {
    let mut bus = Bus::new();
    let mut nc = NeighboorCache::default();
    for i in 0..9u8 {
        nc.put([10, 0, 0, i + 1], [2, 0, 0, 0, 0, i + 1], 1, &mut bus);
    }
    for i in 0..9usize {
        nc.write_hardware(i, &mut bus);
    }
    assert_eq!(hw_count(&nc), 8);
    assert_eq!(nc.get(0).hardware_slot, None);
    assert_eq!(nc.get(8).hardware_slot, Some(0));
    for i in 1..8usize {
        assert_eq!(nc.get(i).hardware_slot, Some(i));
    }
}

#[test]
fn lookup_on_an_empty_cache_finds_nothing() {
    let nc = NeighboorCache::default();
    assert_eq!(nc.lookup(&[0, 0, 0, 0]), None);
    assert_eq!(nc.lookup(&[10, 0, 0, 1]), None);
}

#[test]
fn lookup_finds_the_first_of_two_entries_for_one_address() {
    let mut bus = Bus::new();
    let mut nc = NeighboorCache::default();
    nc.put([10, 0, 0, 1], [1, 1, 1, 1, 1, 1], 1, &mut bus);
    nc.put([10, 0, 0, 1], [2, 2, 2, 2, 2, 2], 2, &mut bus);
    assert_eq!(nc.lookup(&[10, 0, 0, 1]), Some(0));
    assert!(!nc.learn([10, 0, 0, 1], [3, 3, 3, 3, 3, 3], 3, &mut bus));
    assert!(nc.learn([10, 0, 0, 2], [3, 3, 3, 3, 3, 3], 3, &mut bus));
    assert_eq!(nc.lookup(&[10, 0, 0, 2]), Some(2));
}

#[test]
fn promotion_programs_the_slot_in_order() {
    let mut bus = Bus::new();
    let mut nc = NeighboorCache::default();
    nc.put([192, 168, 0, 50], [0xAA, 0xBB, 0xCC, 0xDD, 0xEE, 0x01], 1, &mut bus);
    nc.write_hardware(0, &mut bus);
    let w = |upper: bool, word: u32| BusOp::CmdWrite { upper, word };
    let want = vec![
        // WriteNCEntIP, slot 0, data 50 0 168 192 0 0
        w(false, 0),
        w(true, 0x0000_C0A8),
        w(false, 0x0032_0003),
        // WriteNCEntMAC, slot 0, data 01 EE DD CC BB AA
        w(false, 0),
        w(true, 0xAABB_CCDD),
        w(false, 0xEE01_0004),
        // WriteNCEntPort, slot 0, data 1
        w(false, 0),
        w(true, 0),
        w(false, 0x0001_0005),
        // EnableNCEnt, slot 0
        w(false, 0),
        w(true, 0),
        w(false, 0x0000_0006),
    ];
    assert_eq!(bus.take_trace(), want);
    assert_eq!(nc.get(0).hardware_slot, Some(0));
}

#[test]
fn put_over_a_mirrored_entry_disables_its_slot() {
    let mut bus = Bus::new();
    let mut nc = NeighboorCache::default();
    for i in 0..16u8 {
        nc.put([10, 0, 0, i + 1], [2, 0, 0, 0, 0, i + 1], 1, &mut bus);
    }
    nc.write_hardware(3, &mut bus);
    nc.write_hardware(0, &mut bus);
    bus.take_trace();
    // The insert cursor is back on entry 0, which hardware slot 1 mirrors.
    nc.put([10, 0, 1, 1], [4, 4, 4, 4, 4, 4], 2, &mut bus);
    let want = vec![
        BusOp::CmdWrite { upper: false, word: 0 },
        BusOp::CmdWrite { upper: true, word: 0 },
        BusOp::CmdWrite { upper: false, word: 0x0000_0107 },
    ];
    assert_eq!(bus.take_trace(), want);
    assert_eq!(nc.get(0).hardware_slot, None);
    assert_eq!(nc.get(0).ip, [10, 0, 1, 1]);
    // An entry that no hardware slot mirrors goes without a command.
    nc.put([10, 0, 1, 2], [4, 4, 4, 4, 4, 5], 2, &mut bus);
    assert!(bus.take_trace().is_empty());
}

#[test]
fn a_stolen_slot_leaves_its_entry_in_software() {
    let mut bus = Bus::new();
    let mut nc = NeighboorCache::default();
    for i in 0..10u8 {
        nc.put([10, 0, 0, i + 1], [2, 0, 0, 0, 0, i + 1], 1, &mut bus);
    }
    for i in 0..8usize {
        nc.write_hardware(i, &mut bus);
    }
    assert_eq!(hw_count(&nc), 8);
    nc.write_hardware(9, &mut bus);
    assert_eq!(nc.get(0).hardware_slot, None);
    assert_eq!(nc.get(9).hardware_slot, Some(0));
    assert_eq!(nc.lookup(&[10, 0, 0, 1]), Some(0));
    assert_eq!(hw_count(&nc), 8);
}
