use fossil_delta::b64::{b64int, b64str};

#[test]
fn b64_works() {
    for i in 0..1000 {
        let s = b64str(i);
        let s1 = b64str(i + 0x1_00_0000);
        assert_eq!(i, b64int(&s));
        assert_eq!(i, b64int(&s1) - 0x1_00_0000);
    }
}

#[test]
fn b64str_digits() {
    assert_eq!(b64str(0), "0");
    assert_eq!(b64str(9), "9");
    assert_eq!(b64str(10), "A");
    assert_eq!(b64str(35), "Z");
    assert_eq!(b64str(36), "_");
    assert_eq!(b64str(37), "a");
    assert_eq!(b64str(62), "z");
    assert_eq!(b64str(63), "~");
    assert_eq!(b64str(64), "10");
    assert_eq!(b64str(4095), "~~");
    assert_eq!(b64str(u32::MAX), "3~~~~~");
}

#[test]
fn b64int_stops_at_first_non_digit() {
    assert_eq!(b64int("10"), 64);
    assert_eq!(b64int("10:rest"), 64);
    assert_eq!(b64int(""), 0);
    assert_eq!(b64int("@12"), 0);
    assert_eq!(b64int("A~"), 10 * 64 + 63);
}

#[test]
fn b64int_keeps_32_bits() {
    assert_eq!(b64int("3~~~~~"), u32::MAX);
    // a seventh digit shifts the top bits out
    assert_eq!(b64int("10000000"), 0);
    assert_eq!(b64int("4000001"), 1);
}

#[test]
fn b64int_reads_low_seven_bits() {
    // 0xB1 has the low seven bits of '1'
    let s = String::from_utf8(vec![b'1', 0xC2, 0xB1]).unwrap();
    // 0xC2 & 127 is 'B' (value 11), 0xB1 & 127 is '1'
    assert_eq!(b64int(&s), (1 * 64 + 11) * 64 + 1);
}

#[test]
fn b64_roundtrip_values() {
    for n in [0u32, 1, 63, 64, 65, 4096, 123456789, u32::MAX - 1, u32::MAX] {
        assert_eq!(b64int(&b64str(n)), n);
    }
}
