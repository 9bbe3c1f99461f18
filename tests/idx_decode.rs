use digitnn::idx::{IdxData, Num};
use digitnn::Error;

fn header(code: u8, sizes: &[i32]) -> Vec<u8> {
    let mut b = vec![0u8, 0u8, code, sizes.len() as u8];
    for s in sizes {
        b.extend_from_slice(&s.to_be_bytes());
    }
    b
}

fn decode(bytes: &[u8]) -> Result<IdxData, Error> {
    IdxData::new(String::from("mem"), bytes)
}

#[test]
fn decodes_three_dimensional_bytes() {
    let mut b = header(0x08, &[2, 4, 4]);
    for i in 0..32u8 {
        b.push(i);
    }
    let t = decode(&b).unwrap();
    assert_eq!(t.magic_number, 0x0803);
    assert_eq!(t.sizes, vec![2, 4, 4]);
    assert_eq!(t.total_size, 32);
    assert_eq!(t.data.len(), 32);
    assert_eq!(t.data[0], Num::Unsigned(0));
    assert_eq!(t.data[31], Num::Unsigned(31));
    assert_eq!(t.path, "mem");
    b.pop();
    assert_eq!(decode(&b).unwrap_err(), Error::Truncated);
}

#[test]
fn unknown_element_type_fails() {
    let mut b = header(0x01, &[1]);
    b.push(7);
    assert_eq!(decode(&b).unwrap_err(), Error::UnknownType);
    let mut b = header(0x0A, &[1]);
    b.push(7);
    assert_eq!(decode(&b).unwrap_err(), Error::UnknownType);
    // bytes above the encoding byte must be zero
    let mut b = header(0x08, &[1]);
    b[1] = 1;
    b.push(7);
    assert_eq!(decode(&b).unwrap_err(), Error::UnknownType);
    let mut b = header(0x08, &[1]);
    b[0] = 0x80;
    b.push(7);
    assert_eq!(decode(&b).unwrap_err(), Error::UnknownType);
}

#[test]
fn short_header_fails() {
    assert_eq!(decode(&[]).unwrap_err(), Error::Truncated);
    assert_eq!(decode(&[0, 0, 8]).unwrap_err(), Error::Truncated);
    // two dimensions declared, one size present
    let b = vec![0u8, 0, 8, 2, 0, 0, 0, 1];
    assert_eq!(decode(&b).unwrap_err(), Error::Truncated);
}

#[test]
fn declared_payload_longer_than_stream_fails() {
    let mut b = header(0x0C, &[3]);
    b.extend_from_slice(&[0u8; 11]);
    assert_eq!(decode(&b).unwrap_err(), Error::Truncated);
    b.push(0);
    assert_eq!(decode(&b).unwrap().total_size, 3);
    // a product far beyond any stream
    let b = header(0x08, &[i32::MAX, i32::MAX, i32::MAX, i32::MAX, i32::MAX]);
    assert_eq!(decode(&b).unwrap_err(), Error::Truncated);
}

#[test]
fn negative_size_fails() {
    let b = header(0x08, &[2, -1]);
    assert_eq!(decode(&b).unwrap_err(), Error::NegativeSize);
}

#[test]
fn zero_size_gives_empty_tensor() {
    let b = header(0x08, &[i32::MAX, 0, i32::MAX]);
    let t = decode(&b).unwrap();
    assert_eq!(t.total_size, 0);
    assert!(t.data.is_empty());
}

#[test]
fn no_dimensions_gives_one_element() {
    let mut b = header(0x09, &[]);
    b.push(0xFF);
    let t = decode(&b).unwrap();
    assert_eq!(t.total_size, 1);
    assert_eq!(t.data, vec![Num::Signed(-1)]);
}

#[test]
fn trailing_bytes_are_ignored() {
    let mut b = header(0x08, &[2]);
    b.extend_from_slice(&[5, 6, 7, 8]);
    let t = decode(&b).unwrap();
    assert_eq!(t.data, vec![Num::Unsigned(5), Num::Unsigned(6)]);
}

#[test]
fn decodes_each_encoding_big_endian() {
    let mut b = header(0x09, &[2]);
    b.extend_from_slice(&[0x80, 0x7F]);
    assert_eq!(decode(&b).unwrap().data, vec![Num::Signed(-128), Num::Signed(127)]);

    let mut b = header(0x0B, &[2]);
    b.extend_from_slice(&[0x01, 0x02, 0xFF, 0xFE]);
    assert_eq!(decode(&b).unwrap().data, vec![Num::Short(0x0102), Num::Short(-2)]);

    let mut b = header(0x0C, &[2]);
    b.extend_from_slice(&[0x01, 0x02, 0x03, 0x04, 0x80, 0, 0, 0]);
    assert_eq!(decode(&b).unwrap().data, vec![Num::Int(0x01020304), Num::Int(i32::MIN)]);

    let mut b = header(0x0D, &[1]);
    b.extend_from_slice(&1.5f32.to_be_bytes());
    let t = decode(&b).unwrap();
    assert_eq!(t.data, vec![Num::Float(0x3FC0_0000)]);
    assert_eq!(f32::from_bits(0x3FC0_0000), 1.5);

    let mut b = header(0x0E, &[1]);
    b.extend_from_slice(&(-2.25f64).to_be_bytes());
    let t = decode(&b).unwrap();
    assert_eq!(t.data, vec![Num::Double((-2.25f64).to_bits())]);
    assert_eq!(t.data, vec![Num::Double(0xC002_0000_0000_0000)]);
}

#[test]
fn decoded_sizes_come_from_the_header() {
    let mut b = header(0x0B, &[3, 1]);
    b.extend_from_slice(&[0, 1, 0, 2, 0, 3]);
    let t = decode(&b).unwrap();
    assert_eq!(t.magic_number, 0x0B02);
    assert_eq!(t.sizes, vec![3, 1]);
    assert_eq!(t.total_size, 3);
}
