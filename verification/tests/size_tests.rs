use ringlog::size::{size_to_number, ConfigError};

#[test]
fn determine_size_from_bytes() {
    let bytes = size_to_number(String::from("1B")).unwrap();
    assert_eq!(1, bytes);
}

#[test]
fn determine_size_from_kilobytes() {
    let bytes = size_to_number(String::from("1KiB")).unwrap();
    assert_eq!(1024, bytes);
}

#[test]
fn determine_size_from_megabytes() {
    let bytes = size_to_number(String::from("1MiB")).unwrap();
    assert_eq!(1048576, bytes);
}

#[test]
fn determine_size_from_gigabytes() {
    let bytes = size_to_number(String::from("1GiB")).unwrap();
    assert_eq!(1073741824, bytes);
}

#[test]
fn multi_digit_sizes_scale_exactly() {
    assert_eq!(Ok(10), size_to_number(String::from("10B")));
    assert_eq!(Ok(2 * 1048576), size_to_number(String::from("2MiB")));
    assert_eq!(Ok(365 * 1024), size_to_number(String::from("365KiB")));
    assert_eq!(Ok(0), size_to_number(String::from("0B")));
}

#[test]
fn unknown_unit_is_a_config_error() {
    assert_eq!(
        Err(ConfigError::UnknownUnit),
        size_to_number(String::from("5XB"))
    );
    assert_eq!(
        Err(ConfigError::UnknownUnit),
        size_to_number(String::from("123"))
    );
    assert_eq!(
        Err(ConfigError::UnknownUnit),
        size_to_number(String::from("10KB"))
    );
    assert_eq!(
        Err(ConfigError::UnknownUnit),
        size_to_number(String::from("1kib"))
    );
}

#[test]
fn missing_numeric_part_is_malformed() {
    assert_eq!(
        Err(ConfigError::MalformedNumber),
        size_to_number(String::from("KiB"))
    );
    assert_eq!(
        Err(ConfigError::MalformedNumber),
        size_to_number(String::from(""))
    );
    assert_eq!(
        Err(ConfigError::MalformedNumber),
        size_to_number(String::from("-5B"))
    );
}

#[test]
fn sizes_past_sixty_four_bits_overflow() {
    assert_eq!(
        Err(ConfigError::Overflow),
        size_to_number(String::from("99999999999999999999B"))
    );
    assert_eq!(
        Err(ConfigError::Overflow),
        size_to_number(String::from("17179869184GiB"))
    );
}

#[test]
fn largest_expressible_sizes_parse() {
    assert_eq!(
        Ok(u64::MAX),
        size_to_number(String::from("18446744073709551615B"))
    );
    assert_eq!(
        Ok(17179869183u64 << 30),
        size_to_number(String::from("17179869183GiB"))
    );
}
