use srgn::ranges::{ByteRange, Ranges};
use srgn::text::{delimits_slice, keep_slices, slice, starts_with};

#[test]
fn slicing_by_byte_ranges() {
    assert_eq!(slice("aäb", ByteRange::new(1, 3)), "ä");
    assert_eq!(slice("aäb", ByteRange::new(0, 4)), "aäb");
    assert_eq!(slice("aäb", ByteRange::new(3, 3)), "");
    assert_eq!(slice("", ByteRange::new(0, 0)), "");
}

#[test]
fn telling_what_delimits_a_slice() {
    assert!(delimits_slice("aäb", ByteRange::new(1, 3)));
    assert!(delimits_slice("aäb", ByteRange::new(4, 4)));
    assert!(!delimits_slice("aäb", ByteRange::new(1, 2)));
    assert!(!delimits_slice("aäb", ByteRange::new(2, 3)));
    assert!(!delimits_slice("aäb", ByteRange::new(3, 1)));
    assert!(!delimits_slice("aäb", ByteRange::new(3, 5)));
}

#[test]
fn telling_prefixes() {
    assert!(starts_with("_SRGN_IGNORE.rest", "_SRGN_IGNORE"));
    assert!(starts_with("äb", "ä"));
    assert!(starts_with("ab", ""));
    assert!(starts_with("", ""));
    assert!(!starts_with("ab", "b"));
    assert!(!starts_with("a", "ab"));
    assert!(!starts_with("äb", "a"));
}

#[test]
fn keeping_what_delimits_slices() {
    let ranges = Ranges::from_vec(vec![
        ByteRange::new(0, 1),
        ByteRange::new(2, 3),
        ByteRange::new(4, 5),
        ByteRange::new(6, 9),
    ]);
    assert_eq!(
        keep_slices("aäbcd", &ranges),
        Ranges::from_vec(vec![ByteRange::new(0, 1), ByteRange::new(4, 5)])
    );
}
