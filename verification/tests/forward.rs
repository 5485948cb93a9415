use meowrouter::forward::{key_is_zero, Cuckoo, Row, ROWS_NUM};
use meowrouter::routing::IPAddr;
use rand::Rng;
use std::collections::HashSet;

#[test]
fn test_row() -> Result<(), ()> {
    let mut r = Row::new();
    r.insert(&[192, 168, 1, 23], &[192, 168, 1, 1])?;
    assert_eq!(r.lookup(&[192, 168, 1, 23]).unwrap(), [192, 168, 1, 1]);
    r.remove(&[192, 168, 1, 23])?;
    assert_eq!(r.lookup(&[192, 168, 1, 23]), None);

    Ok(())
}

#[test]
fn test_cuckoo() -> Result<(), ()> {
    let mut c = Cuckoo::new();

    let cases = [
        ([1, 2, 3, 4], [192, 168, 4, 1]),
        ([10, 1, 2, 3], [192, 168, 4, 1]),
        ([10, 0, 2, 3], [192, 168, 2, 1]),
        ([10, 0, 1, 1], [192, 168, 1, 1]),
        ([10, 0, 4, 3], [192, 168, 3, 1]),
        ([10, 0, 100, 3], [192, 168, 3, 1]),
        ([10, 0, 1, 255], [192, 168, 5, 1]),
        ([10, 0, 1, 254], [192, 168, 5, 1]),
        ([10, 0, 1, 253], [192, 168, 1, 1]),
    ];

    // insert them
    for (from, to) in &cases {
        c.insert(from, to, false)?;
    }

    // lookup them
    for (from, to) in &cases {
        assert_eq!(c.lookup(from).unwrap(), *to);
    }

    // remove them
    for (from, _) in &cases {
        c.remove(from)?;
    }

    // check the deletions
    for (from, _) in &cases {
        assert_eq!(c.lookup(from), None);
    }
    Ok(())
}

#[test]
fn test_cuckoo_modifiying() -> Result<(), ()> {
    let mut c = Cuckoo::new();

    c.insert(&[192, 168, 1, 23], &[192, 168, 1, 1], false)?;
    c.insert(&[192, 168, 1, 23], &[10, 1, 1, 1], false)?;
    assert_eq!(c.lookup(&[192, 168, 1, 23]).unwrap(), [10, 1, 1, 1]);

    Ok(())
}

fn gen_ipaddr() -> IPAddr {
    let mut rng = rand::thread_rng();
    [rng.gen::<u8>(), rng.gen::<u8>(), rng.gen::<u8>(), rng.gen::<u8>()]
}

#[test]
fn test_utlizaiont_rate() -> Result<(), ()> {
    // the table can store 0.8 * ROWS_NUM * 4 keys
    // i.e., the utilization rate is 0.8
    let key_cnt = (0.8 * ROWS_NUM as f32 * 4 as f32) as usize;

    let mut c = Cuckoo::new();
    let mut kvs = Vec::<(IPAddr, IPAddr)>::with_capacity(key_cnt);
    let mut keys = HashSet::<IPAddr>::new();

    // insert to check if the Cuckoo can achieve 80% utilization rate
    for _ in 0..key_cnt {
        loop {
            let k = gen_ipaddr();
            let v = gen_ipaddr();
            // to ensure there are not duplicate keys
            if !keys.contains(&k) && k != [0, 0, 0, 0] {
                c.insert(&k, &v, false)?;
                keys.insert(k);
                kvs.push((k, v));
                break;
            }
        }
    }
    for (from, to) in &kvs {
        assert_eq!(c.lookup(from).unwrap(), *to);
    }

    // check if keep inserting, will the random_evict works
    for _ in 0..key_cnt {
        loop {
            let k = gen_ipaddr();
            let v = gen_ipaddr();
            // to ensure there are not duplicate keys
            if !keys.contains(&k) && k != [0, 0, 0, 0] {
                c.insert(&k, &v, true)?;
                keys.insert(k);
                assert_eq!(c.lookup(&k).unwrap(), v);
                kvs.push((k, v));
                break;
            }
        }
    }
    let keys_in_cuckoo: usize = kvs.iter().map(|(k, _)| c.lookup(&k).is_some() as usize).sum();
    assert!(keys_in_cuckoo > key_cnt + 10);

    Ok(())
}

/// Keys that share both rows: first two bytes and last two bytes agree in
/// their low ten bits.
fn clash(n: u8) -> IPAddr {
    [7, 4 * n, 9, 4 * n]
}

#[test]
fn a_full_pair_of_rows_refuses_without_eviction() {
    let mut c = Cuckoo::new();
    // Both rows of these keys are row 7 and row 9; they hold eight keys.
    for n in 1..=8u8 {
        assert_eq!(c.insert(&clash(n), &[n, 0, 0, 0], false), Ok(()));
    }
    // The occupants have no other rows to move to.
    assert_eq!(c.insert(&clash(9), &[9, 0, 0, 0], false), Err(()));
    assert_eq!(c.lookup(&clash(9)), None);
    for n in 1..=8u8 {
        assert_eq!(c.lookup(&clash(n)), Some([n, 0, 0, 0]));
    }
}

#[test]
fn eviction_overwrites_the_slot_that_the_counter_names() {
    let mut c = Cuckoo::new();
    for n in 1..=8u8 {
        c.insert(&clash(n), &[n, 0, 0, 0], false).unwrap();
    }
    // Keys 1 to 4 fill the first row in order, 5 to 8 the second. The
    // counter goes 1, 2, ..: slot 1 of the first row, then slot 2, ..
    assert_eq!(c.insert(&clash(9), &[9, 0, 0, 0], true), Ok(()));
    assert_eq!(c.lookup(&clash(9)), Some([9, 0, 0, 0]));
    assert_eq!(c.lookup(&clash(2)), None);
    assert_eq!(c.insert(&clash(10), &[10, 0, 0, 0], true), Ok(()));
    assert_eq!(c.lookup(&clash(3)), None);
    assert_eq!(c.insert(&clash(11), &[11, 0, 0, 0], true), Ok(()));
    assert_eq!(c.lookup(&clash(4)), None);
    // Counter 4: slot 0 of the second row.
    assert_eq!(c.insert(&clash(12), &[12, 0, 0, 0], true), Ok(()));
    assert_eq!(c.lookup(&clash(5)), None);
    for n in [1u8, 6, 7, 8, 9, 10, 11, 12] {
        assert_eq!(c.lookup(&clash(n)), Some([n, 0, 0, 0]));
    }
}

#[test]
fn displacement_makes_room_and_keeps_every_key() {
    let mut c = Cuckoo::new();
    // Four keys whose rows are 1 and 2 fill row 1; four whose rows are 1 and
    // 3 go to row 1 too if there is room, which there is not: they go to 3.
    let mut all = Vec::new();
    for n in 1..=4u8 {
        let k = [1, 4 * n, 2, 0];
        c.insert(&k, &[n, 1, 1, 1], false).unwrap();
        all.push((k, [n, 1, 1, 1]));
    }
    for n in 1..=4u8 {
        let k = [1, 4 * n, 3, 0];
        c.insert(&k, &[n, 2, 2, 2], false).unwrap();
        all.push((k, [n, 2, 2, 2]));
    }
    // A key with the single row 1 needs a slot there: an occupant moves.
    let lone = [1, 64, 1, 64];
    assert_eq!(c.insert(&lone, &[5, 5, 5, 5], false), Ok(()));
    all.push((lone, [5, 5, 5, 5]));
    for (k, v) in &all {
        assert_eq!(c.lookup(k), Some(*v));
    }
}

#[test]
fn remove_of_a_missing_key_fails() {
    let mut c = Cuckoo::new();
    c.insert(&[1, 2, 3, 4], &[5, 6, 7, 8], false).unwrap();
    assert_eq!(c.remove(&[4, 3, 2, 1]), Err(()));
    assert_eq!(c.lookup(&[1, 2, 3, 4]), Some([5, 6, 7, 8]));
    assert_eq!(c.remove(&[1, 2, 3, 4]), Ok(()));
    assert_eq!(c.remove(&[1, 2, 3, 4]), Err(()));
}

#[test]
fn round_trip_of_many_keys() {
    let mut c = Cuckoo::new();
    let mut pairs = Vec::new();
    for i in 1..=3000u32 {
        let k = (i.wrapping_mul(2654435761)).to_le_bytes();
        let v = i.to_be_bytes();
        if c.insert(&k, &v, false).is_ok() {
            pairs.push((k, v));
        }
    }
    assert!(pairs.len() > 2900);
    for (k, v) in &pairs {
        assert_eq!(c.lookup(k), Some(*v));
    }
    let (gone, kept) = pairs.split_at(pairs.len() / 2);
    for (k, _) in gone {
        assert_eq!(c.remove(k), Ok(()));
    }
    for (k, _) in gone {
        assert_eq!(c.lookup(k), None);
    }
    for (k, v) in kept {
        assert_eq!(c.lookup(k), Some(*v));
    }
}

#[test]
fn row_operations() {
    let mut r = Row::new();
    assert_eq!(r.modify(&[1, 1, 1, 1], &[2, 2, 2, 2]), Err(()));
    assert_eq!(r.remove(&[1, 1, 1, 1]), Err(()));
    for n in 1..=4u8 {
        assert_eq!(r.insert(&[n, n, n, n], &[n, 0, 0, 0]), Ok(()));
    }
    assert_eq!(r.insert(&[5, 5, 5, 5], &[5, 0, 0, 0]), Err(()));
    assert_eq!(r.modify(&[3, 3, 3, 3], &[9, 9, 9, 9]), Ok(()));
    assert_eq!(r.lookup(&[3, 3, 3, 3]), Some([9, 9, 9, 9]));
    assert_eq!(r.remove(&[2, 2, 2, 2]), Ok(()));
    assert_eq!(r.insert(&[5, 5, 5, 5], &[5, 0, 0, 0]), Ok(()));
    assert_eq!(r.keys[1], [5, 5, 5, 5]);
    assert!(key_is_zero(&[0, 0, 0, 0]));
    assert!(!key_is_zero(&[0, 0, 1, 0]));
}
