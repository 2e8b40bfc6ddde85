use byteorder::{LittleEndian, WriteBytesExt};
use mtklogo::error::{ErrorKind, MtkError};
use mtklogo::header::{MtkHeader, MtkType};
use mtklogo::logo::{LogoImage, LogoTable};
use mtklogo::repack::repack_slots;

fn image_bytes(blobs: Vec<Vec<u8>>) -> Vec<u8> {
    let image = LogoImage::new_blobs(blobs);
    let mut buffer = Vec::new();
    image.write(&mut buffer);
    buffer
}

#[test]
fn read_blob_rejects_out_of_range_index() {
    let table = LogoImage::new_blobs(vec![vec![1, 2, 3]]).table;
    let reader = vec![0u8; 1024];

    let err = table.read_blob(&reader, 1).unwrap_err();
    assert_eq!(err.kind(), ErrorKind::InvalidInput);
}

#[test]
fn read_rejects_unsorted_offsets() {
    let mut buffer = Vec::new();
    let header = MtkHeader { size: 64, mtk_type: MtkType::LOGO };
    header.write(&mut buffer);
    buffer.write_u32::<LittleEndian>(2).unwrap();
    buffer.write_u32::<LittleEndian>(64).unwrap();
    buffer.write_u32::<LittleEndian>(32).unwrap();
    buffer.write_u32::<LittleEndian>(16).unwrap();

    let err = LogoTable::read(&buffer).unwrap_err();
    assert_eq!(err.kind(), ErrorKind::InvalidData);
    assert_eq!(err, MtkError::OffsetsNotOrdered);
}

#[test]
fn header_layout_is_magic_size_name_padding() {
    let mut buffer = Vec::new();
    MtkHeader { size: 0x01020304, mtk_type: MtkType::LOGO }.write(&mut buffer);
    assert_eq!(buffer.len(), 512);
    assert_eq!(&buffer[0..4], &[0x88, 0x16, 0x88, 0x58]);
    assert_eq!(&buffer[4..8], &[0x04, 0x03, 0x02, 0x01]);
    assert_eq!(&buffer[8..12], b"LOGO");
    assert!(buffer[12..40].iter().all(|b| *b == 0));
    assert!(buffer[40..512].iter().all(|b| *b == 0xff));
}

#[test]
fn header_roundtrips_every_type() {
    for t in [MtkType::LOGO, MtkType::RECOVERY, MtkType::ROOTFS, MtkType::KERNEL] {
        let h = MtkHeader { size: 12345, mtk_type: t };
        let mut buffer = Vec::new();
        h.write(&mut buffer);
        buffer.extend_from_slice(&[7, 7, 7]);
        assert_eq!(MtkHeader::read(&buffer), Ok(h));
    }
}

#[test]
fn header_errors() {
    assert_eq!(MtkHeader::read(&[0u8; 100]), Err(MtkError::UnexpectedEof));
    assert_eq!(MtkHeader::read(&[0u8; 512]), Err(MtkError::BadMagic));
    let mut buffer = Vec::new();
    MtkHeader { size: 1, mtk_type: MtkType::LOGO }.write(&mut buffer);
    buffer[8] = b'X';
    assert_eq!(MtkHeader::read(&buffer), Err(MtkError::UnknownType));
    assert_eq!(MtkError::UnknownType.kind(), ErrorKind::InvalidData);
}

#[test]
fn new_blobs_lays_slots_out_after_the_offsets() {
    let image = LogoImage::new_blobs(vec![vec![1, 2, 3], vec![], vec![9; 5]]);
    assert_eq!(image.table.logo_count, 3);
    assert_eq!(image.table.offsets, vec![20, 23, 23]);
    assert_eq!(image.table.block_size, 28);
    assert_eq!(image.table.header, MtkHeader { size: 28, mtk_type: MtkType::LOGO });
}

#[test]
fn image_roundtrips_through_bytes() {
    let blobs = vec![vec![1u8, 2, 3], vec![], vec![9; 5], vec![0xab; 700]];
    let bytes = image_bytes(blobs.clone());
    assert_eq!(bytes.len(), 512 + 4 * 6 + 3 + 5 + 700);
    let image = LogoImage::read(&bytes).unwrap();
    assert_eq!(image.blobs, blobs);
    assert_eq!(image.table.offsets, vec![24, 27, 27, 32]);
    assert_eq!(image.table.block_size, 732);
}

#[test]
fn table_roundtrips_through_bytes() {
    let image = LogoImage::new_blobs(vec![vec![5; 10], vec![6; 20]]);
    let mut bytes = Vec::new();
    image.table.write(&mut bytes);
    assert_eq!(bytes.len(), 512 + 8 + 8);
    let table = LogoTable::read(&bytes).unwrap();
    assert_eq!(table.offsets, image.table.offsets);
    assert_eq!(table.logo_count, 2);
    assert_eq!(table.block_size, image.table.block_size);
    // the table alone does not hold the slots
    assert_eq!(table.read_blobs(&bytes), Err(MtkError::UnexpectedEof));
}

#[test]
fn read_rejects_other_partitions_and_bad_sizes() {
    let mut bytes = Vec::new();
    MtkHeader { size: 8, mtk_type: MtkType::RECOVERY }.write(&mut bytes);
    bytes.write_u32::<LittleEndian>(0).unwrap();
    bytes.write_u32::<LittleEndian>(8).unwrap();
    assert_eq!(LogoTable::read(&bytes).unwrap_err(), MtkError::NotALogo);

    let mut bytes = Vec::new();
    MtkHeader { size: 9, mtk_type: MtkType::LOGO }.write(&mut bytes);
    bytes.write_u32::<LittleEndian>(0).unwrap();
    bytes.write_u32::<LittleEndian>(8).unwrap();
    assert_eq!(
        LogoTable::read(&bytes).unwrap_err(),
        MtkError::SizeMismatch { header_size: 9, block_size: 8 }
    );

    let mut bytes = Vec::new();
    MtkHeader { size: 30, mtk_type: MtkType::LOGO }.write(&mut bytes);
    bytes.write_u32::<LittleEndian>(2).unwrap();
    bytes.write_u32::<LittleEndian>(30).unwrap();
    bytes.write_u32::<LittleEndian>(16).unwrap();
    let short = LogoTable::read(&bytes).unwrap_err();
    assert_eq!(short, MtkError::UnexpectedEof);
    assert_eq!(short.kind(), ErrorKind::UnexpectedEof);
    bytes.write_u32::<LittleEndian>(31).unwrap();
    assert_eq!(LogoTable::read(&bytes).unwrap_err(), MtkError::OffsetExceedsBlock { index: 1 });
}

#[test]
fn read_blob_reports_missing_bytes() {
    let bytes = image_bytes(vec![vec![1, 2, 3, 4]]);
    let image = LogoImage::read(&bytes).unwrap();
    assert_eq!(image.table.read_blob(&bytes, 0), Ok(vec![1, 2, 3, 4]));
    let cut = &bytes[..bytes.len() - 1];
    assert_eq!(image.table.read_blob(cut, 0), Err(MtkError::UnexpectedEof));
    assert!(LogoImage::read(cut).is_err());
}

#[test]
fn repack_sorts_slots_by_index() {
    let bytes = repack_slots(vec![(10, vec![10]), (0, vec![0]), (5, vec![5, 5])]);
    let image = LogoImage::read(&bytes).unwrap();
    assert_eq!(image.blobs, vec![vec![0], vec![5, 5], vec![10]]);
}

#[test]
fn repack_keeps_equal_indices_in_order() {
    let bytes = repack_slots(vec![(1, vec![2]), (0, vec![0]), (1, vec![1])]);
    let image = LogoImage::read(&bytes).unwrap();
    assert_eq!(image.blobs, vec![vec![0], vec![2], vec![1]]);
}

#[test]
fn empty_last_slot_past_the_data_reads_empty() {
    let mut bytes = Vec::new();
    MtkHeader { size: 100, mtk_type: MtkType::LOGO }.write(&mut bytes);
    bytes.write_u32::<LittleEndian>(1).unwrap();
    bytes.write_u32::<LittleEndian>(100).unwrap();
    bytes.write_u32::<LittleEndian>(100).unwrap();
    assert_eq!(bytes.len(), 524);
    let table = LogoTable::read(&bytes).unwrap();
    assert_eq!(table.read_blob(&bytes, 0), Ok(vec![]));
    let image = LogoImage::read(&bytes).unwrap();
    assert_eq!(image.blobs, vec![Vec::<u8>::new()]);
}

#[test]
fn written_slots_stand_at_their_offsets() {
    let blobs = vec![vec![1u8, 2, 3], vec![], vec![9; 5], vec![0xab; 7]];
    let image = LogoImage::new_blobs(blobs.clone());
    let bytes = image_bytes(blobs.clone());
    let offsets = image.table.offsets.clone();
    assert_eq!(offsets[0], 4 * (2 + 4));
    for (k, blob) in blobs.iter().enumerate() {
        let start = 512 + offsets[k] as usize;
        assert_eq!(&bytes[start..start + blob.len()], blob.as_slice());
        if k + 1 < blobs.len() {
            assert_eq!(offsets[k + 1] as usize, offsets[k] as usize + blob.len());
        }
    }
}

#[test]
fn reading_all_slots_fails_at_the_first_unreadable_one() {
    let bytes = image_bytes(vec![vec![1, 2], vec![3, 4, 5], vec![6]]);
    let table = LogoTable::read(&bytes).unwrap();
    let cut = &bytes[..bytes.len() - 2];
    assert_eq!(table.read_blob(cut, 0), Ok(vec![1, 2]));
    assert_eq!(table.read_blob(cut, 1), Err(MtkError::UnexpectedEof));
    assert_eq!(table.read_blobs(cut), Err(MtkError::UnexpectedEof));
    assert_eq!(table.read_blobs(&bytes), Ok(vec![vec![1, 2], vec![3, 4, 5], vec![6]]));
}
