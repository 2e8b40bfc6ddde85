use mtklogo::color::{ColorMode, Endian};
use mtklogo::error::{ErrorKind, MtkError};
use mtklogo::slot_file::{ContentType, FileInfo};

#[test]
fn slot_file_names_give_index_and_content() {
    assert_eq!(
        FileInfo::from_name("logo_000_bgrabe.png"),
        Ok(FileInfo { id: 0, content_type: ContentType::PNG(ColorMode::Bgra(Endian::Big)) })
    );
    assert_eq!(FileInfo::from_name("logo_010_raw.z"), Ok(FileInfo { id: 10, content_type: ContentType::Z }));
    assert_eq!(FileInfo::from_name("logo_7_a.b.z"), Ok(FileInfo { id: 7, content_type: ContentType::Z }));
}

#[test]
fn slot_file_names_rejected() {
    for bad in [
        "",
        "logo_",
        "logo_.z",
        "logo_12.z",
        "logo_1_raw",
        "logo_1_raw.jpg",
        "logo_1_cmyk.png",
        "image_1_raw.z",
        "logo_99999999999999999999999999_raw.z",
    ] {
        let err = FileInfo::from_name(bad).unwrap_err();
        assert_eq!(err, MtkError::BadFileName);
        assert_eq!(err.kind(), ErrorKind::InvalidInput);
    }
}

/// Repacks slot files given by name and contents, as the repack command does for `.z` slots.
fn repack_files(files: Vec<(&str, Vec<u8>)>) -> Vec<u8> {
    let mut slots = Vec::new();
    for (name, bytes) in files {
        let info = FileInfo::from_name(name).unwrap();
        assert_eq!(info.content_type, ContentType::Z);
        slots.push((info.id, bytes));
    }
    mtklogo::repack::repack_slots(slots)
}

#[test]
fn repack_logo_sorts_slots_by_filename_index() {
    let output = repack_files(vec![("logo_010_raw.z", vec![10]), ("logo_000_raw.z", vec![0])]);

    let image = mtklogo::logo::LogoImage::read(&output).unwrap();
    assert_eq!(image.blobs, vec![vec![0], vec![10]]);
}
