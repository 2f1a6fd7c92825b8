use fsuipc::error::Error;
use fsuipc::frame::{
    decode_body, decode_header, encode_read_request, encode_termination, encode_write_request,
    Frame,
};
use fsuipc::raw::{MutRawBytes, RawBytes};

fn encoded(f: impl Fn(&mut MutRawBytes)) -> Vec<u8> {
    let mut w = MutRawBytes::new(vec![0u8; 32], 32);
    f(&mut w);
    let n = w.position();
    let mut bytes = w.into_inner();
    bytes.truncate(n);
    bytes
}

#[test]
fn read_request_wire_format() {
    let bytes = encoded(|w| encode_read_request(w, 0x3304, 4));
    assert_eq!(bytes, vec![1, 0x04, 0x33, 4, 0]);
}

#[test]
fn write_request_wire_format() {
    let bytes = encoded(|w| encode_write_request(w, 0x0238, &[9, 8, 7]));
    assert_eq!(bytes, vec![2, 0x38, 0x02, 3, 0, 9, 8, 7]);
}

#[test]
fn termination_wire_format() {
    let bytes = encoded(|w| encode_termination(w));
    assert_eq!(bytes, vec![0]);
}

#[test]
fn read_request_round_trip() {
    let bytes = encoded(|w| encode_read_request(w, 0xBEEF, 0x1234));
    let n = bytes.len();
    let mut r = RawBytes::new(bytes, n);
    assert_eq!(
        decode_header(&mut r),
        Ok(Frame::ReadRequest { offset: 0xBEEF, len: 0x1234 })
    );
    assert_eq!(r.consumed(), 5);
}

#[test]
fn write_request_round_trip() {
    let bytes = encoded(|w| encode_write_request(w, 0x0102, &[0xAA, 0xBB]));
    let n = bytes.len();
    let mut r = RawBytes::new(bytes, n);
    let f = decode_header(&mut r).unwrap();
    assert_eq!(f, Frame::WriteRequest { offset: 0x0102, len: 2 });
    assert_eq!(decode_body(&mut r, f), Ok(vec![0xAA, 0xBB]));
    assert_eq!(r.consumed(), 7);
}

#[test]
fn unknown_tag_is_malformed() {
    let mut r = RawBytes::new(vec![7, 0, 0, 0, 0], 5);
    assert_eq!(decode_header(&mut r), Err(Error::MalformedFrame));
}

#[test]
fn short_header_is_malformed() {
    let mut r = RawBytes::new(vec![1, 0, 0], 3);
    assert_eq!(decode_header(&mut r), Err(Error::MalformedFrame));
    let mut empty = RawBytes::new(Vec::new(), 0);
    assert_eq!(decode_header(&mut empty), Err(Error::MalformedFrame));
}

#[test]
fn body_past_the_end_is_malformed() {
    let mut r = RawBytes::new(vec![1, 0, 0, 4, 0, 1, 2], 7);
    let f = decode_header(&mut r).unwrap();
    assert_eq!(decode_body(&mut r, f), Err(Error::MalformedFrame));
}

#[test]
fn termination_has_no_body() {
    let mut r = RawBytes::new(vec![0, 5, 5], 3);
    let f = decode_header(&mut r).unwrap();
    assert_eq!(f, Frame::Termination);
    assert_eq!(decode_body(&mut r, f), Ok(Vec::new()));
    assert_eq!(r.consumed(), 1);
}
