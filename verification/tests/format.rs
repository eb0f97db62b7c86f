use disk_panel::format::{decimal, format_number, GIB, KIB, MIB, TIB};

#[test]
fn decimal_writes_single_digits() {
    assert_eq!(decimal(0), "0");
    assert_eq!(decimal(7), "7");
    assert_eq!(decimal(9), "9");
}

#[test]
fn decimal_writes_longer_numbers() {
    assert_eq!(decimal(10), "10");
    assert_eq!(decimal(101), "101");
    assert_eq!(decimal(1234567890), "1234567890");
    assert_eq!(decimal(u64::MAX), "18446744073709551615");
}

#[test]
fn decimal_agrees_with_the_standard_library() {
    let mut n: u64 = 1;
    for _ in 0..64 {
        assert_eq!(decimal(n), n.to_string());
        assert_eq!(decimal(n - 1), (n - 1).to_string());
        n = n.wrapping_mul(2);
    }
}

#[test]
fn units_are_powers_of_1024() {
    assert_eq!(KIB, 1 << 10);
    assert_eq!(MIB, 1 << 20);
    assert_eq!(GIB, 1 << 30);
    assert_eq!(TIB, 1 << 40);
}

#[test]
fn format_number_below_ten_kibibytes_is_in_bytes() {
    assert_eq!(format_number(0), "0 B");
    assert_eq!(format_number(600), "600 B");
    assert_eq!(format_number(1000), "1000 B");
    assert_eq!(format_number(1024), "1024 B");
    assert_eq!(format_number(10 * KIB - 1), "10239 B");
}

#[test]
fn format_number_changes_unit_at_ten_of_the_next() {
    assert_eq!(format_number(10 * KIB), "10 KiB");
    assert_eq!(format_number(10 * MIB - 1), "10239 KiB");
    assert_eq!(format_number(10 * MIB), "10 MiB");
    assert_eq!(format_number(10 * GIB - 1), "10239 MiB");
    assert_eq!(format_number(10 * GIB), "10 GiB");
    assert_eq!(format_number(10 * TIB - 1), "10239 GiB");
    assert_eq!(format_number(10 * TIB), "10 TiB");
}

#[test]
fn format_number_rounds_down() {
    assert_eq!(format_number(11 * KIB - 1), "10 KiB");
    assert_eq!(format_number(500 * GIB + 7), "500 GiB");
    assert_eq!(format_number(TIB + TIB / 2), "1536 GiB");
    assert_eq!(format_number(250 * MIB + MIB / 2), "250 MiB");
}

#[test]
fn format_number_stays_in_tebibytes_above() {
    assert_eq!(format_number(5000 * TIB), "5000 TiB");
    assert_eq!(format_number(u64::MAX), "16777215 TiB");
}
