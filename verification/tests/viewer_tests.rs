use base64::Engine;
use taureria::paths::{library_info_path, metadata_file, taureria_dir, thumbnail_file_name, thumbnails_dir};
use taureria::viewer::{
    decimal_string, image_entries, mime_for, viewer_label, viewer_url, ImageData, ViewerError,
    ViewerSessions,
};

fn strings(v: &[&str]) -> Vec<String> {
    v.iter().map(|s| s.to_string()).collect()
}

#[test]
fn image_entries_are_the_images_sorted_by_name() {
    let names = strings(&["p10.jpg", "readme.txt", "p02.png", "P01.jpeg", "dir/", "p02.PNG", "a.jpeg"]);
    assert_eq!(image_entries(&names), strings(&["P01.jpeg", "a.jpeg", "p02.png", "p10.jpg"]));
}

#[test]
fn image_entries_sort_by_code_point_and_prefix_first() {
    let names = strings(&["ab.png", "a.png", "é.png", "z.png", "a.png"]);
    assert_eq!(image_entries(&names), strings(&["a.png", "a.png", "ab.png", "z.png", "é.png"]));
    assert!(image_entries(&Vec::new()).is_empty());
}

#[test]
fn mime_is_png_only_for_png_names() {
    assert_eq!(mime_for("a.png"), "image/png");
    assert_eq!(mime_for("a.jpg"), "image/jpeg");
    assert_eq!(mime_for("a.jpeg"), "image/jpeg");
    assert_eq!(mime_for("a.PNG"), "image/jpeg");
}

#[test]
fn image_data_is_standard_base64_with_its_mime() {
    let d = ImageData::encode(b"hello", "p.png");
    assert_eq!(d.data_text(), "aGVsbG8=");
    assert_eq!(d.mime_text(), "image/png");
    let d = ImageData::encode(&[0xff, 0xfe, 0x3e], "p.jpg");
    assert_eq!(d.data_text(), "//4+");
    assert_eq!(d.mime_text(), "image/jpeg");
    let d = ImageData::encode(&[], "p.jpg");
    assert_eq!(d.data_text(), "");
}

#[test]
fn image_data_decodes_back_to_the_bytes() {
    for len in 0..10usize {
        let bytes: Vec<u8> = (0..len).map(|i| (i * 97 + 200) as u8).collect();
        let d = ImageData::encode(&bytes, "p.png");
        let back = base64::engine::general_purpose::STANDARD.decode(d.data_text()).expect("decodes");
        assert_eq!(back, bytes);
        assert_eq!(d.data_text().len(), (len + 2) / 3 * 4);
    }
}

#[test]
fn image_data_from_encoded_keeps_the_text() {
    let d = ImageData::from_encoded("QUJD".to_string(), "x.png");
    assert_eq!(d.data_text(), "QUJD");
    assert_eq!(d.mime_text(), "image/png");
}

#[test]
fn decimal_notation() {
    assert_eq!(decimal_string(0), "0");
    assert_eq!(decimal_string(7), "7");
    assert_eq!(decimal_string(10), "10");
    assert_eq!(decimal_string(12345), "12345");
    assert_eq!(decimal_string(usize::MAX), usize::MAX.to_string());
    assert_eq!(decimal_string(4096).parse::<usize>().unwrap(), 4096);
}

#[test]
fn viewer_url_carries_the_page_count() {
    assert_eq!(viewer_url(3), "index.html/#/viewer?p=3");
    assert_eq!(viewer_url(0), "index.html/#/viewer?p=0");
    assert_eq!(viewer_url(120), "index.html/#/viewer?p=120");
}

#[test]
fn viewer_label_is_prefixed_uuid() {
    let a = viewer_label();
    let b = viewer_label();
    assert_eq!(a.len(), 43);
    assert!(a.starts_with("viewer-"));
    assert_eq!(&a[21..22], "4");
    assert_ne!(a, b);
}

#[test]
fn sessions_answer_with_opened_pages() {
    let mut s = ViewerSessions::new();
    let w1 = "viewer-1".to_string();
    let w2 = "viewer-2".to_string();
    assert_eq!(s.page_name(&w1, 0), Err(ViewerError::NoZipLoaded));
    assert_eq!(s.open(w1.clone(), strings(&["a.jpg", "b.jpg"])), 2);
    assert_eq!(s.page_name(&w1, 0), Ok("a.jpg".to_string()));
    assert_eq!(s.page_name(&w1, 1), Ok("b.jpg".to_string()));
    assert_eq!(s.page_name(&w1, 2), Err(ViewerError::IndexOutOfRange));
    assert_eq!(s.page_name(&w2, 0), Err(ViewerError::NoZipLoaded));
    assert_eq!(s.open(w2.clone(), strings(&["z.png"])), 1);
    assert_eq!(s.open(w1.clone(), strings(&["c.png"])), 1);
    assert_eq!(s.page_name(&w1, 0), Ok("c.png".to_string()));
    assert_eq!(s.page_name(&w1, 1), Err(ViewerError::IndexOutOfRange));
    assert_eq!(s.page_name(&w2, 0), Ok("z.png".to_string()));
}

#[test]
fn viewer_error_messages() {
    assert_eq!(ViewerError::NoZipLoaded.message(), "No ZIP loaded");
    assert_eq!(ViewerError::IndexOutOfRange.message(), "Index out of range");
}

#[test]
fn derived_paths() {
    assert_eq!(library_info_path("/home/u/.local/share/app"), "/home/u/.local/share/app/libraryinfo.json");
    assert_eq!(taureria_dir("/lib"), "/lib/.taureria");
    assert_eq!(thumbnails_dir("/lib"), "/lib/.taureria/thumbnails");
    assert_eq!(metadata_file("/lib"), "/lib/.taureria/libmetadata.json");
    assert_eq!(thumbnail_file_name("abc"), "abc.jpg");
}

#[test]
fn image_data_from_parts() {
    let d = ImageData::from_parts("AAAA".to_string(), "image/png".to_string());
    assert_eq!(d.data_text(), "AAAA");
    assert_eq!(d.mime_text(), "image/png");
}
