use std::io::Cursor;

use std::io::Write;

use taureria::archive::{
    cover_entry_bytes, cover_image, cover_image_index, cover_index_given_lowercase, decode_cover,
    has_image_suffix, has_zip_extension, lowercase_names, thumbnail_fits, zip_file_names, CoverError,
    DirEntry,
};

fn png_bytes(w: u32, h: u32) -> Vec<u8> {
    let img = image::RgbImage::from_fn(w, h, |x, y| image::Rgb([x as u8, y as u8, 7]));
    let mut bytes = Cursor::new(Vec::new());
    img.write_to(&mut bytes, image::ImageFormat::Png).expect("encode");
    bytes.into_inner()
}

fn zip_of(entries: &[(&str, &[u8])]) -> Vec<u8> {
    let mut w = zip::ZipWriter::new(Cursor::new(Vec::new()));
    for (name, data) in entries {
        w.start_file(*name, zip::write::SimpleFileOptions::default()).expect("start");
        w.write_all(data).expect("write");
    }
    w.finish().expect("finish").into_inner()
}

#[test]
fn zip_extension_follows_path_extension() {
    assert!(has_zip_extension("a.zip"));
    assert!(has_zip_extension("comic.vol1.zip"));
    assert!(has_zip_extension(".hidden.zip"));
    assert!(!has_zip_extension("a.ZIP"));
    assert!(!has_zip_extension(".zip"));
    assert!(!has_zip_extension("zip"));
    assert!(!has_zip_extension("a.zip.bak"));
    assert!(!has_zip_extension("a."));
    assert!(!has_zip_extension(".."));
    assert!(!has_zip_extension(""));
}

#[test]
fn zip_file_names_keeps_regular_zip_files_in_order() {
    let entries = vec![
        DirEntry { name: "b.zip".to_string(), is_file: true },
        DirEntry { name: "dir.zip".to_string(), is_file: false },
        DirEntry { name: "notes.txt".to_string(), is_file: true },
        DirEntry { name: "a.zip".to_string(), is_file: true },
    ];
    assert_eq!(zip_file_names(&entries), vec!["b.zip".to_string(), "a.zip".to_string()]);
    assert!(zip_file_names(&Vec::new()).is_empty());
}

#[test]
fn image_suffix_is_case_sensitive() {
    assert!(has_image_suffix("p1.png"));
    assert!(has_image_suffix("p1.jpg"));
    assert!(has_image_suffix("p1.jpeg"));
    assert!(!has_image_suffix("p1.PNG"));
    assert!(!has_image_suffix("p1.gif"));
    assert!(!has_image_suffix("png"));
}

#[test]
fn lowercase_names_lowers_each_readable_entry() {
    let names = vec![Some("COVER.JPG".to_string()), None, Some("x.Png".to_string()), Some("ページ.JPEG".to_string())];
    assert_eq!(
        lowercase_names(&names),
        vec![Some("cover.jpg".to_string()), None, Some("x.png".to_string()), Some("ページ.jpeg".to_string())]
    );
}

#[test]
fn cover_choice_on_given_lower_case_names() {
    let names = vec![Some("B.JPG".to_string()), Some("A.TXT".to_string()), Some("C.PNG".to_string())];
    let lower = vec![Some("b.jpg".to_string()), Some("a.txt".to_string()), Some("c.png".to_string())];
    assert_eq!(cover_index_given_lowercase(&names, &lower), Some(0));
    let shorter = vec![Some("b.txt".to_string())];
    assert_eq!(cover_index_given_lowercase(&names, &shorter), None);
}

#[test]
fn cover_is_the_least_image_name() {
    let names = vec![
        Some("b/02.jpg".to_string()),
        Some("info.txt".to_string()),
        None,
        Some("a/10.PNG".to_string()),
        Some("b/01.jpg".to_string()),
    ];
    assert_eq!(cover_image_index(&names), Some(3));
}

#[test]
fn cover_ties_go_to_the_first_entry() {
    let names = vec![Some("x.jpg".to_string()), Some("a.jpg".to_string()), Some("a.jpg".to_string())];
    assert_eq!(cover_image_index(&names), Some(1));
}

#[test]
fn no_cover_without_images() {
    let names = vec![Some("a.txt".to_string()), None];
    assert_eq!(cover_image_index(&names), None);
    assert_eq!(cover_image_index(&Vec::new()), None);
}

#[test]
fn thumbnail_fits_when_both_sides_are_small() {
    assert!(thumbnail_fits(512, 512, 512));
    assert!(thumbnail_fits(10, 300, 512));
    assert!(!thumbnail_fits(513, 10, 512));
    assert!(!thumbnail_fits(10, 1000, 512));
}

#[test]
fn decode_cover_accepts_png_and_refuses_garbage() {
    let bytes = png_bytes(3, 2);
    let decoded = decode_cover(&bytes).ok().expect("decodes");
    assert_eq!((decoded.width, decoded.height, decoded.color), (3, 2, 2));
    assert_eq!(decoded.samples.len(), 3 * 2 * 3);
    assert_eq!(&decoded.samples[0..3], &[0, 0, 7]);
    assert_eq!(&decoded.samples[3..6], &[1, 0, 7]);
    assert!(matches!(decode_cover(b"not an image"), Err(CoverError::Undecodable)));
}

#[test]
fn cover_entry_is_read_from_the_archive() {
    let cover = png_bytes(2, 2);
    let zip = zip_of(&[("notes.txt", b"hi"), ("b.jpg", b"second"), ("A.PNG", &cover)]);
    let (i, bytes) = cover_entry_bytes(&zip).ok().expect("cover");
    assert_eq!(i, 2);
    assert_eq!(bytes, cover);
}

#[test]
fn cover_image_decodes_the_chosen_entry() {
    let cover = png_bytes(4, 1);
    let other = png_bytes(1, 1);
    let zip = zip_of(&[("z.png", &other), ("a.png", &cover)]);
    let d = cover_image(&zip).ok().expect("image");
    assert_eq!((d.width, d.height), (4, 1));
}

#[test]
fn cover_errors() {
    assert_eq!(cover_image(b"not a zip").err(), Some(CoverError::InvalidZip));
    assert_eq!(cover_entry_bytes(b"").err(), Some(CoverError::InvalidZip));
    let zip = zip_of(&[("readme.txt", b"x")]);
    assert_eq!(cover_image(&zip).err(), Some(CoverError::NoImage));
    let zip = zip_of(&[("a.jpg", b"not really an image")]);
    assert_eq!(cover_image(&zip).err(), Some(CoverError::Undecodable));
}

#[test]
fn decode_cover_goes_by_the_bytes_not_the_name() {
    let img = image::GrayImage::from_fn(2, 3, |x, y| image::Luma([(x + 10 * y) as u8]));
    let mut bmp = Cursor::new(Vec::new());
    img.write_to(&mut bmp, image::ImageFormat::Bmp).expect("encode");
    let zip = zip_of(&[("cover.png", bmp.get_ref())]);
    let d = cover_image(&zip).ok().expect("decodes");
    assert_eq!((d.width, d.height), (2, 3));
}
