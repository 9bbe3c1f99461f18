use digitnn::idx::{IdxData, Num};

fn tensor(code: i32, sizes: Vec<usize>, data: Vec<Num>) -> IdxData {
    let total: u128 = sizes.iter().map(|s| *s as u128).product();
    IdxData {
        path: String::from("t"),
        magic_number: code * 256 + sizes.len() as i32,
        data,
        sizes,
        total_size: total,
    }
}

fn round_trip(t: &IdxData) {
    let bytes = t.encode();
    let back = IdxData::new(t.path.clone(), &bytes).unwrap();
    assert_eq!(back.magic_number, t.magic_number);
    assert_eq!(back.sizes, t.sizes);
    assert_eq!(back.total_size, t.total_size);
    assert_eq!(back.data, t.data);
    assert_eq!(back.path, t.path);
    assert_eq!(back.encode(), bytes);
}

#[test]
fn encodes_header_and_payload_big_endian() {
    let t = tensor(0x0B, vec![2], vec![Num::Short(0x0102), Num::Short(-2)]);
    assert_eq!(t.encode(), vec![0, 0, 0x0B, 1, 0, 0, 0, 2, 0x01, 0x02, 0xFF, 0xFE]);
    let t = tensor(0x09, vec![1], vec![Num::Signed(-1)]);
    assert_eq!(t.encode(), vec![0, 0, 0x09, 1, 0, 0, 0, 1, 0xFF]);
    let t = tensor(0x0E, vec![1], vec![Num::Double(0x0102_0304_0506_0708)]);
    assert_eq!(t.encode()[8..], [1, 2, 3, 4, 5, 6, 7, 8]);
}

#[test]
fn round_trip_unsigned() {
    round_trip(&tensor(0x08, vec![2, 2], vec![Num::Unsigned(0), Num::Unsigned(1), Num::Unsigned(128), Num::Unsigned(255)]));
}

#[test]
fn round_trip_signed() {
    round_trip(&tensor(0x09, vec![3], vec![Num::Signed(-128), Num::Signed(0), Num::Signed(127)]));
}

#[test]
fn round_trip_short() {
    round_trip(&tensor(0x0B, vec![3], vec![Num::Short(i16::MIN), Num::Short(-1), Num::Short(i16::MAX)]));
}

#[test]
fn round_trip_int() {
    round_trip(&tensor(0x0C, vec![1, 3], vec![Num::Int(i32::MIN), Num::Int(-70000), Num::Int(i32::MAX)]));
}

#[test]
fn round_trip_float() {
    round_trip(&tensor(0x0D, vec![2], vec![Num::Float(1.5f32.to_bits()), Num::Float((-0.0f32).to_bits())]));
}

#[test]
fn round_trip_double() {
    round_trip(&tensor(0x0E, vec![2], vec![Num::Double(0.1f64.to_bits()), Num::Double(u64::MAX)]));
}

#[test]
fn round_trip_empty_and_scalar() {
    round_trip(&tensor(0x08, vec![0, 5], vec![]));
    round_trip(&tensor(0x0C, vec![], vec![Num::Int(42)]));
}
