//! The file and directory names the application derives from a library's
//! path and from the application data directory.
use vstd::prelude::*;

verus! {

/// `base` followed by `tail`.
fn joined(base: &str, tail: &str) -> (res: String)
    ensures
        res@ == base@ + tail@,
{
    let mut res = String::from_str(base);
    res.append(tail);
    res
}

/// The catalogue file in the application data directory:
/// `{data_dir}/libraryinfo.json`.
pub fn library_info_path(data_dir: &str) -> (res: String)
    ensures
        res@ == data_dir@ + "/libraryinfo.json"@,
{
    joined(data_dir, "/libraryinfo.json")
}

/// The library's private directory: `{library}/.taureria`.
pub fn taureria_dir(library_path: &str) -> (res: String)
    ensures
        res@ == library_path@ + "/.taureria"@,
{
    joined(library_path, "/.taureria")
}

/// The library's thumbnail directory: `{library}/.taureria/thumbnails`.
pub fn thumbnails_dir(library_path: &str) -> (res: String)
    ensures
        res@ == library_path@ + "/.taureria"@ + "/thumbnails"@,
{
    let dir = taureria_dir(library_path);
    joined(dir.as_str(), "/thumbnails")
}

/// The library's metadata file: `{library}/.taureria/libmetadata.json`.
pub fn metadata_file(library_path: &str) -> (res: String)
    ensures
        res@ == library_path@ + "/.taureria"@ + "/libmetadata.json"@,
{
    let dir = taureria_dir(library_path);
    joined(dir.as_str(), "/libmetadata.json")
}

/// The file name of a content's thumbnail: `{content_id}.jpg`.
pub fn thumbnail_file_name(content_id: &str) -> (res: String)
    ensures
        res@ == content_id@ + ".jpg"@,
{
    joined(content_id, ".jpg")
}

} // verus!
