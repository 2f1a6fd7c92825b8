use fsuipc::raw::{MutRawBytes, RawBytes};

#[test]
fn should_read_from_rawbytes() {
    let src = [1u8, 2, 3, 4];
    let mut dest = [0, 0, 0, 0];
    let mut raw = RawBytes::new(src.to_vec(), 4);
    assert_eq!(raw.read(&mut dest), 4);
    assert_eq!(dest[0], 1);
    assert_eq!(dest[1], 2);
    assert_eq!(dest[2], 3);
    assert_eq!(dest[3], 4);
}

#[test]
fn should_read_from_rawbytes_with_underflow() {
    let src = [1u8, 2, 3, 4];
    let mut dest = [0, 0];
    let mut raw = RawBytes::new(src.to_vec(), 4);
    assert_eq!(raw.read(&mut dest), 2);
    assert_eq!(dest[0], 1);
    assert_eq!(dest[1], 2);
}

#[test]
fn should_read_from_rawbytes_with_overflow() {
    let src = [1u8, 2, 3, 4];
    let mut dest = [0, 0, 0, 0, 0, 0];
    let mut raw = RawBytes::new(src.to_vec(), 4);
    assert_eq!(raw.read(&mut dest), 4);
    assert_eq!(dest[0], 1);
    assert_eq!(dest[1], 2);
    assert_eq!(dest[2], 3);
    assert_eq!(dest[3], 4);
    assert_eq!(dest[4], 0);
    assert_eq!(dest[5], 0);
}

#[test]
fn should_count_consumed_for_mutrawbytes() {
    let src = [1u8, 2, 3, 4];
    let mut dest = [0, 0];
    let mut raw = RawBytes::new(src.to_vec(), 4);
    raw.read(&mut dest);
    assert_eq!(raw.consumed(), 2);
    raw.read(&mut dest);
    assert_eq!(raw.consumed(), 4);
}

#[test]
fn should_write_to_mutrawbytes() {
    let src = [1u8, 2, 3, 4];
    let mut raw = MutRawBytes::new(vec![0u8, 0, 0, 0], 4);
    assert_eq!(raw.write(&src), 4);
    let dest = raw.into_inner();
    assert_eq!(dest[0], 1);
    assert_eq!(dest[1], 2);
    assert_eq!(dest[2], 3);
    assert_eq!(dest[3], 4);
}

#[test]
fn should_write_to_mutrawbytes_with_underflow() {
    let src = [1u8, 2, 3, 4];
    let mut raw = MutRawBytes::new(vec![0u8, 0, 0, 0, 0, 0], 4);
    assert_eq!(raw.write(&src), 4);
    let dest = raw.into_inner();
    assert_eq!(dest[0], 1);
    assert_eq!(dest[1], 2);
    assert_eq!(dest[2], 3);
    assert_eq!(dest[3], 4);
    assert_eq!(dest[4], 0);
    assert_eq!(dest[5], 0);
}

#[test]
fn should_write_to_mutrawbytes_with_overflow() {
    let src = [1u8, 2, 3, 4];
    let mut raw = MutRawBytes::new(vec![0u8, 0], 2);
    assert_eq!(raw.write(&src), 2);
    let dest = raw.into_inner();
    assert_eq!(dest[0], 1);
    assert_eq!(dest[1], 2);
}

#[test]
fn read_clamps_to_remaining_and_counts_what_it_returns() {
    let src: Vec<u8> = (0u8..10).collect();
    let mut raw = RawBytes::new(src, 7);
    let mut three = [0u8; 3];
    assert_eq!(raw.read(&mut three), 3);
    assert_eq!(three, [0, 1, 2]);
    assert_eq!(raw.consumed(), 3);
    assert_eq!(raw.remaining(), 4);
    let mut ten = [9u8; 10];
    assert_eq!(raw.read(&mut ten), 4);
    assert_eq!(ten, [3, 4, 5, 6, 9, 9, 9, 9, 9, 9]);
    assert_eq!(raw.consumed(), 7);
    assert_eq!(raw.read(&mut ten), 0);
    assert_eq!(raw.consumed(), 7);
}

#[test]
fn read_cursor_limit_never_passes_the_source() {
    let mut raw = RawBytes::new(vec![5u8, 6], 100);
    assert_eq!(raw.remaining(), 2);
    let mut dest = [0u8; 4];
    assert_eq!(raw.read(&mut dest), 2);
    assert_eq!(dest, [5, 6, 0, 0]);
}

#[test]
fn empty_read_cursor_returns_zero() {
    let mut raw = RawBytes::new(Vec::new(), 0);
    let mut dest = [7u8; 2];
    assert_eq!(raw.read(&mut dest), 0);
    assert_eq!(dest, [7, 7]);
    assert_eq!(raw.consumed(), 0);
}

#[test]
fn write_drops_what_does_not_fit() {
    let mut raw = MutRawBytes::new(vec![0u8; 5], 3);
    assert_eq!(raw.write(&[1, 2]), 2);
    assert_eq!(raw.write(&[3, 4, 5]), 1);
    assert_eq!(raw.write(&[6]), 0);
    assert_eq!(raw.position(), 3);
    assert_eq!(raw.remaining(), 0);
    assert_eq!(raw.bytes(), &[1, 2, 3, 0, 0]);
}

#[test]
fn clamped_write_equals_write_of_the_prefix() {
    let long: Vec<u8> = (1u8..=10).collect();
    let mut a = MutRawBytes::new(vec![0u8; 6], 6);
    let mut b = MutRawBytes::new(vec![0u8; 6], 6);
    a.write(&[7, 7, 7, 7]);
    b.write(&[7, 7, 7, 7]);
    assert_eq!(a.write(&long), 2);
    assert_eq!(b.write(&long[..2]), 2);
    assert_eq!(a.position(), b.position());
    assert_eq!(a.into_inner(), b.into_inner());
}

#[test]
fn flush_changes_nothing() {
    let mut raw = MutRawBytes::new(vec![0u8; 2], 2);
    raw.write(&[4]);
    raw.flush();
    assert_eq!(raw.position(), 1);
    assert_eq!(raw.bytes(), &[4, 0]);
}
