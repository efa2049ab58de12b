use file_explorer::size_label::format_sizes;

#[test]
fn bytes_below_one_thousand() {
    assert_eq!(format_sizes(500), "500 B");
    assert_eq!(format_sizes(0), "0 B");
    assert_eq!(format_sizes(999), "999 B");
}

#[test]
fn kilobytes() {
    assert_eq!(format_sizes(1_500), "1.50 KB");
    assert_eq!(format_sizes(1_000), "1.00 KB");
    assert_eq!(format_sizes(12_345), "12.35 KB");
}

#[test]
fn megabytes_gigabytes_terabytes() {
    assert_eq!(format_sizes(1_500_000), "1.50 MB");
    assert_eq!(format_sizes(1_500_000_000), "1.50 GB");
    assert_eq!(format_sizes(1_500_000_000_000), "1.50 TB");
}

#[test]
fn rounding_to_hundredths() {
    assert_eq!(format_sizes(1_234_567), "1.23 MB");
    assert_eq!(format_sizes(1_235_000), "1.24 MB");
    assert_eq!(format_sizes(999_999), "1000.00 KB");
}

#[test]
fn everything_above_terabytes_stays_in_terabytes() {
    assert_eq!(format_sizes(1_000_000_000_000_000), "1000.00 TB");
    assert_eq!(format_sizes(u64::MAX), "18446744.07 TB");
}
