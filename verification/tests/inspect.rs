use flate2::write::ZlibEncoder;
use flate2::Compression;
use mtklogo::inspect::{inflated_sizes, inspect_logo};
use mtklogo::logo::LogoImage;
use std::io::Write;

fn deflate(data: &[u8]) -> Vec<u8> {
    let mut encoder = ZlibEncoder::new(Vec::new(), Compression::default());
    encoder.write_all(data).unwrap();
    encoder.finish().unwrap()
}

fn image_bytes(blobs: Vec<Vec<u8>>) -> Vec<u8> {
    let image = LogoImage::new_blobs(blobs);
    let mut buffer = Vec::new();
    image.write(&mut buffer);
    buffer
}

#[test]
fn inspect_logo_reports_slots() {
    let raw = vec![1_u8, 2, 3, 4];
    let compressed = deflate(&raw);
    let buffer = image_bytes(vec![compressed]);

    let inspection = inspect_logo(&buffer).unwrap();
    assert_eq!(inspection.slot_count, 1);
    assert_eq!(inspection.slots.len(), 1);
    assert_eq!(inspection.slots[0].raw_size, deflate(&raw).len());
}

#[test]
fn inspect_logo_reports_inflation() {
    let buffer = image_bytes(vec![deflate(&[7u8; 100]), vec![1, 2, 3]]);
    let inspection = inspect_logo(&buffer).unwrap();
    assert_eq!(inspection.header_size, inspection.block_size);
    assert_eq!(inspection.slots[0].index, 0);
    assert_eq!(inspection.slots[0].inflated_size, Some(100));
    assert!(inspection.slots[0].inflation_error.is_none());
    assert_eq!(inspection.slots[1].index, 1);
    assert_eq!(inspection.slots[1].raw_size, 3);
    assert!(inspection.slots[1].inflated_size.is_none());
    assert!(inspection.slots[1].inflation_error.is_some());
    assert_eq!(inspection.supported_modes.len(), 6);
    assert!(inspect_logo(&[0u8; 10]).is_err());
}

#[test]
fn inflated_sizes_of_selected_slots() {
    let buffer = image_bytes(vec![deflate(&[1u8; 10]), deflate(&[2u8; 20]), deflate(&[3u8; 30])]);
    let image = LogoImage::read(&buffer).unwrap();
    assert_eq!(inflated_sizes(&image, &None), Ok(vec![10, 20, 30]));
    assert_eq!(inflated_sizes(&image, &Some(vec![2, 0])), Ok(vec![10, 30]));
    let bad = LogoImage::read(&image_bytes(vec![vec![9, 9]])).unwrap();
    assert!(inflated_sizes(&bad, &None).is_err());
    assert_eq!(inflated_sizes(&bad, &Some(vec![])), Ok(vec![]));
}
