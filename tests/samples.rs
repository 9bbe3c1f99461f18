use digitnn::idx::{IdxData, Num};
use digitnn::shape::layer_shapes;
use digitnn::{Error, Image};

fn idx_file(code: u8, sizes: &[i32], payload: &[u8]) -> Vec<u8> {
    let mut b = vec![0u8, 0u8, code, sizes.len() as u8];
    for s in sizes {
        b.extend_from_slice(&s.to_be_bytes());
    }
    b.extend_from_slice(payload);
    b
}

#[test]
fn two_images_and_labels_from_files() {
    let pixels: Vec<u8> = (0..32u8).map(|i| i * 7).collect();
    let imgs = IdxData::new(String::from("imgs"), &idx_file(0x08, &[2, 4, 4], &pixels)).unwrap();
    let labels = IdxData::new(String::from("labels"), &idx_file(0x08, &[2], &[3, 9])).unwrap();
    let images = imgs.images().unwrap();
    assert_eq!(images.len(), 2);
    for (k, img) in images.iter().enumerate() {
        assert_eq!(img.dimensions, (4, 4));
        assert_eq!(img.data_1d.len(), 16);
        assert_eq!(img.data.len(), 4);
        let flat: Vec<u8> = img.data.iter().flatten().copied().collect();
        assert_eq!(flat, img.data_1d);
        assert_eq!(img.data_1d, pixels[16 * k..16 * (k + 1)].to_vec());
    }
    assert_eq!(images[1].data[2], vec![pixels[24], pixels[25], pixels[26], pixels[27]]);
    assert_eq!(labels.labels().unwrap(), vec![3, 9]);
}

#[test]
fn single_image_by_index() {
    let pixels: Vec<u8> = (0..12u8).collect();
    let t = IdxData::new(String::from("x"), &idx_file(0x08, &[2, 2, 3], &pixels)).unwrap();
    let img = t.image(1).unwrap();
    assert_eq!(img.dimensions, (2, 3));
    assert_eq!(img.data, vec![vec![6, 7, 8], vec![9, 10, 11]]);
    assert_eq!(t.image(2).unwrap_err(), Error::WrongSize);
}

#[test]
fn images_need_three_dimensions_of_bytes() {
    let t = IdxData::new(String::from("x"), &idx_file(0x08, &[4], &[1, 2, 3, 4])).unwrap();
    assert_eq!(t.images().unwrap_err(), Error::WrongSize);
    let t = IdxData::new(String::from("x"), &idx_file(0x09, &[1, 1, 2], &[1, 2])).unwrap();
    assert_eq!(t.images().unwrap_err(), Error::WrongSize);
    assert_eq!(t.image(0).unwrap_err(), Error::WrongSize);
    let t = IdxData::new(String::from("x"), &idx_file(0x08, &[0, 28, 28], &[])).unwrap();
    assert!(t.images().unwrap().is_empty());
}

#[test]
fn labels_must_be_bytes() {
    let t = IdxData::new(String::from("x"), &idx_file(0x0B, &[1], &[0, 1])).unwrap();
    assert_eq!(t.labels().unwrap_err(), Error::WrongSize);
}

#[test]
fn from_slice_builds_rows_and_flat_form() {
    let d = vec![Num::Unsigned(1), Num::Unsigned(2), Num::Unsigned(3), Num::Unsigned(4), Num::Unsigned(5), Num::Unsigned(6)];
    let img = Image::from_slice(&d, 3, 2).unwrap();
    assert_eq!(img.dimensions, (3, 2));
    assert_eq!(img.data, vec![vec![1, 2], vec![3, 4], vec![5, 6]]);
    assert_eq!(img.data_1d, vec![1, 2, 3, 4, 5, 6]);
    let img = Image::from_slice(&d, 2, 3).unwrap();
    assert_eq!(img.data, vec![vec![1, 2, 3], vec![4, 5, 6]]);
}

#[test]
fn from_slice_rejects_other_kinds_and_lengths() {
    let d = vec![Num::Unsigned(1), Num::Signed(2)];
    assert_eq!(Image::from_slice(&d, 1, 2).unwrap_err(), Error::WrongSize);
    let d = vec![Num::Unsigned(1), Num::Unsigned(2)];
    assert_eq!(Image::from_slice(&d, 2, 2).unwrap_err(), Error::WrongSize);
    assert_eq!(Image::from_slice(&d, usize::MAX, 2).unwrap_err(), Error::WrongSize);
    let img = Image::from_slice(&[], 0, 5).unwrap();
    assert!(img.data.is_empty());
}

#[test]
fn layer_shapes_chain_sizes() {
    assert_eq!(layer_shapes(784, &vec![200, 75, 10]), vec![(784, 200), (200, 75), (75, 10)]);
    assert_eq!(layer_shapes(1, &vec![1]), vec![(1, 1)]);
}

#[test]
fn image_text_is_padded_upper_hex() {
    let d = vec![Num::Unsigned(0x0A), Num::Unsigned(0xFF), Num::Unsigned(0x10), Num::Unsigned(0)];
    let img = Image::from_slice(&d, 2, 2).unwrap();
    assert_eq!(img.to_string(), " AFF\n10 0\n");
    let img = Image::from_slice(&[], 0, 0).unwrap();
    assert_eq!(img.to_string(), "");
}
