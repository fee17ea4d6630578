use ringlog::names::file_name;

#[test]
fn active_and_archive_names_follow_the_scheme() {
    assert_eq!(b"output.log".to_vec(), file_name(b"output", 0, b"log"));
    assert_eq!(b"output.1.log".to_vec(), file_name(b"output", 1, b"log"));
    assert_eq!(b"output.5.log".to_vec(), file_name(b"output", 5, b"log"));
    assert_eq!(b"shuffle.2.txt".to_vec(), file_name(b"shuffle", 2, b"txt"));
}

#[test]
fn archive_indices_render_in_full_decimal() {
    assert_eq!(b"out.12.log".to_vec(), file_name(b"out", 12, b"log"));
    assert_eq!(b"out.10230.log".to_vec(), file_name(b"out", 10230, b"log"));
    assert_eq!(b"out.18446744073709551615.log".to_vec(), file_name(b"out", u64::MAX, b"log"));
}
