use meowrouter::util::{
    cycles_to_usec, time_of_reading, hprint, hprint_bytes, hprint_char, hprint_dec, hprint_hex, hprint_hex_byte,
    hprint_hex_digit, hprint_hex_u64, hprint_ip, hprint_mac, hprint_setup,
};

fn text(f: impl FnOnce(&mut Vec<u8>)) -> String {
    let mut out = Vec::new();
    f(&mut out);
    String::from_utf8(out).unwrap()
}

#[test]
fn decimal() {
    assert_eq!(text(|o| hprint_dec(0, o)), "0");
    assert_eq!(text(|o| hprint_dec(7, o)), "7");
    assert_eq!(text(|o| hprint_dec(10, o)), "10");
    assert_eq!(text(|o| hprint_dec(1234567890, o)), "1234567890");
    assert_eq!(text(|o| hprint_dec(u64::MAX, o)), "18446744073709551615");
}

#[test]
fn hexadecimal() {
    assert_eq!(text(|o| hprint_hex_digit(0, o)), "0");
    assert_eq!(text(|o| hprint_hex_digit(9, o)), "9");
    assert_eq!(text(|o| hprint_hex_digit(10, o)), "A");
    assert_eq!(text(|o| hprint_hex_digit(15, o)), "F");
    assert_eq!(text(|o| hprint_hex_byte(0x00, o)), "00");
    assert_eq!(text(|o| hprint_hex_byte(0x9C, o)), "9C");
    assert_eq!(text(|o| hprint_hex_byte(0xFF, o)), "FF");
    assert_eq!(text(|o| hprint_hex(&[0xDE, 0xAD, 0x01], o)), "DEAD01");
    assert_eq!(text(|o| hprint_hex(&[], o)), "");
    assert_eq!(
        text(|o| hprint_hex_u64(0x0123_4567_89AB_CDEF, o)),
        "01 23 45 67 89 AB CD EF "
    );
}

#[test]
fn addresses() {
    assert_eq!(text(|o| hprint_mac(&[0x9c, 0xeb, 0, 0, 0, 1], o)), "9C:EB:00:00:00:01");
    assert_eq!(text(|o| hprint_ip(&[192, 168, 0, 1], o)), "192.168.0.1");
    assert_eq!(text(|o| hprint_ip(&[0, 0, 0, 0], o)), "0.0.0.0");
    assert_eq!(text(|o| hprint_ip(&[255, 255, 255, 255], o)), "255.255.255.255");
}

#[test]
fn plain_text_is_appended() {
    let mut out = b"> ".to_vec();
    hprint_setup();
    hprint("BOOT\n\r", &mut out);
    hprint_bytes(&[1, 2], &mut out);
    hprint_char(b'!', &mut out);
    assert_eq!(out, b"> BOOT\n\r\x01\x02!".to_vec());
}

#[test]
fn microseconds_from_cycles() {
    assert_eq!(cycles_to_usec(0), 0);
    assert_eq!(cycles_to_usec(49), 0);
    assert_eq!(cycles_to_usec(50), 1);
    assert_eq!(cycles_to_usec(1_000_000), 20_000);
}

#[test]
fn time_from_a_reading_of_the_counter() {
    assert_eq!(time_of_reading(None), None);
    assert_eq!(time_of_reading(Some(0)), Some(0));
    assert_eq!(time_of_reading(Some(99)), Some(1));
    assert_eq!(time_of_reading(Some(5_000)), Some(100));
    assert_eq!(time_of_reading(Some(u64::MAX)), Some(368_934_881_474_191_032));
}
