//! The calls this library makes into other crates and into `std` functions
//! that vstd does not specify. Each item here is trusted: its contract is what
//! the called code's source or documentation shows, not something Verus proves.
use vstd::prelude::*;

use std::io::Read;

use chrono::Datelike;
use image::ColorType;

use crate::archive::{DecodedImage, ZipEntryError};
use crate::library::{Date, is_valid_date};
use crate::text::{is_uuid_v4_text, option_views};

verus! {

/// The error of the `image` crate's decoders.
#[verifier::external_type_specification]
#[verifier::external_body]
pub struct ExImageError(image::ImageError);

/// An I/O error of `std`.
#[verifier::external_type_specification]
#[verifier::external_body]
pub struct ExIoError(std::io::Error);

/// The error of the `zip` crate's reader.
#[verifier::external_type_specification]
#[verifier::external_body]
pub struct ExZipError(zip::result::ZipError);

/// What `str::to_lowercase` makes of a string (full Unicode lowercase
/// mapping; a function of the string alone).
pub uninterp spec fn unicode_lowercase(s: Seq<char>) -> Seq<char>;

/// The character of the 6-bit value `v` in the standard base64 alphabet
/// `A`–`Z`, `a`–`z`, `0`–`9`, `+`, `/`.
pub open spec fn base64_char(v: int) -> char {
    if v < 26 {
        (65 + v) as char
    } else if v < 52 {
        (97 + (v - 26)) as char
    } else if v < 62 {
        (48 + (v - 52)) as char
    } else if v == 62 {
        '+'
    } else {
        '/'
    }
}

/// Standard base64 with `=` padding (RFC 4648, section 4): each group of
/// three bytes becomes four characters of six bits each; a final group of
/// one or two bytes is padded to four characters with `=`.
pub open spec fn base64_standard(b: Seq<u8>) -> Seq<char>
    decreases b.len(),
{
    let b0 = b[0] as int;
    let b1 = b[1] as int;
    let b2 = b[2] as int;
    if b.len() == 0 {
        Seq::empty()
    } else if b.len() == 1 {
        seq![base64_char(b0 / 4), base64_char((b0 % 4) * 16), '=', '=']
    } else if b.len() == 2 {
        seq![base64_char(b0 / 4), base64_char((b0 % 4) * 16 + b1 / 16), base64_char((b1 % 16) * 4), '=']
    } else {
        seq![
            base64_char(b0 / 4),
            base64_char((b0 % 4) * 16 + b1 / 16),
            base64_char((b1 % 16) * 4 + b2 / 64),
            base64_char(b2 % 64),
        ] + base64_standard(b.subrange(3, b.len() as int))
    }
}

/// What `image::load_from_memory` decodes from a byte string, as plain
/// values: width, height, colour tag (see `DecodedImage`) and the samples of
/// `DynamicImage::as_bytes`; `None` where it fails. The format is guessed
/// from the bytes and decoded with the default limits, so the outcome is a
/// function of the bytes alone as long as no decoding hook is registered in
/// the `image` crate's process-wide registry (this program registers none).
pub uninterp spec fn decoded_samples(bytes: Seq<u8>) -> Option<(u32, u32, u8, Seq<u8>)>;

/// The entry names that `zip::ZipArchive` reads from an archive held in
/// memory, in the archive's order, `None` for an entry that `by_index`
/// refuses; `None` as a whole where the archive cannot be opened.
pub uninterp spec fn zip_entry_names(archive: Seq<u8>) -> Option<Seq<Option<Seq<char>>>>;

/// Whether `zip::ZipArchive` opens an archive held in memory and finds its
/// entry `index` with `by_index`.
pub uninterp spec fn zip_entry_found(archive: Seq<u8>, index: int) -> bool;

/// The bytes that `zip::ZipArchive` reads from entry `index` of an archive
/// held in memory; `None` where opening, finding or reading it fails.
pub uninterp spec fn zip_entry_data(archive: Seq<u8>, index: int) -> Option<Seq<u8>>;

/// The length `base64::encoded_len(len, true)` computes; the encoder panics
/// when it does not fit in a `usize`.
pub open spec fn padded_base64_len(len: nat) -> nat {
    if len % 3 == 0 {
        (len / 3) * 4
    } else {
        (len / 3) * 4 + 4
    }
}

/// Calls `uuid::Uuid::new_v4()` and formats it with `to_string()`.
/// The source masks the random bits so that the version nibble is 4 and the
/// variant bits are `10`, and `Display` writes the lower-case hyphenated
/// form; the contract states that shape. The value itself is random. The
/// call panics only if the operating system refuses random bytes, which no
/// argument can rule out.
#[verifier::external_body]
pub(crate) fn uuid_v4_string() -> (res: String)
    ensures
        is_uuid_v4_text(res@),
{
    uuid::Uuid::new_v4().to_string()
}

/// Calls `chrono::Local::now().naive_local().date()` and reads its year,
/// month and day. The date depends on the clock and the time zone, so only
/// what holds of every `NaiveDate` is stated: it is a real calendar date.
/// The chrono calls panic only for a clock before 1970 or an offset that
/// pushes the date out of chrono's range, which no argument can rule out.
#[verifier::external_body]
pub(crate) fn local_today() -> (res: Date)
    ensures
        is_valid_date(res),
{
    let d = chrono::Local::now().naive_local().date();
    Date { year: d.year(), month: d.month(), day: d.day() }
}

/// Calls `str::to_lowercase`; the result is named `unicode_lowercase`.
#[verifier::external_body]
pub(crate) fn to_lowercase(s: &str) -> (res: String)
    ensures
        res@ == unicode_lowercase(s@),
{
    s.to_lowercase()
}

/// Calls `base64::encode`, whose `STANDARD` engine writes the standard
/// alphabet with `=` padding, as `base64_standard` states. The call panics when the encoded length
/// overflows a `usize`, which `requires` rules out.
#[verifier::external_body]
#[allow(deprecated)]
pub(crate) fn base64_encode(bytes: &[u8]) -> (res: String)
    requires
        padded_base64_len(bytes@.len()) <= usize::MAX,
    ensures
        res@ == base64_standard(bytes@),
{
    base64::encode(bytes)
}

/// Guesses the format of the bytes with `image::guess_format`, which
/// compares their leading bytes with the built-in signatures only, then
/// decodes them with `image::load_from_memory_with_format`, which uses only
/// the built-in decoder of that format. Neither consults the registry of
/// hooks, so the outcome is a function of the bytes; the image comes back as
/// plain values, named `decoded_samples`.
#[verifier::external_body]
pub(crate) fn load_image(bytes: &[u8]) -> (res: Result<DecodedImage, image::ImageError>)
    ensures
        match res {
            Ok(d) => decoded_samples(bytes@) == Some((d.width, d.height, d.color, d.samples@)),
            Err(_) => decoded_samples(bytes@) is None,
        },
{
    let img = image::load_from_memory_with_format(bytes, image::guess_format(bytes)?)?;
    let color: u8 = match img.color() {
        ColorType::L8 => 0,
        ColorType::La8 => 1,
        ColorType::Rgb8 => 2,
        ColorType::Rgba8 => 3,
        ColorType::L16 => 4,
        ColorType::La16 => 5,
        ColorType::Rgb16 => 6,
        ColorType::Rgba16 => 7,
        ColorType::Rgb32F => 8,
        ColorType::Rgba32F => 9,
        _ => 255,
    };
    Ok(DecodedImage { width: img.width(), height: img.height(), color, samples: img.into_bytes() })
}

/// Opens an archive held in memory with `zip::ZipArchive::new` and reads
/// each entry's name with `by_index(i)` and `name()`; the result is named
/// `zip_entry_names`. An entry has a name here exactly where `by_index`
/// finds it, which is what `zip_entry_found` names: both open the same bytes
/// and call `by_index` with the same index.
#[verifier::external_body]
pub(crate) fn list_zip_entries(archive: &[u8]) -> (res: Result<Vec<Option<String>>, zip::result::ZipError>)
    ensures
        match res {
            Ok(v) => {
                &&& zip_entry_names(archive@) == Some(option_views(v@))
                &&& forall|i: int| 0 <= i < v@.len() ==> (#[trigger] v@[i] is Some) == zip_entry_found(archive@, i)
            },
            Err(_) => zip_entry_names(archive@) is None,
        },
{
    let mut a = zip::ZipArchive::new(std::io::Cursor::new(archive))?;
    Ok((0..a.len()).map(|i| a.by_index(i).ok().map(|f| f.name().to_string())).collect())
}

/// Opens an archive held in memory with `zip::ZipArchive::new`, finds entry
/// `index` with `by_index` and reads it with `read_to_end`; the results are
/// named `zip_entry_found` and `zip_entry_data`, and the error says which
/// step failed.
#[verifier::external_body]
pub(crate) fn read_zip_entry(archive: &[u8], index: usize) -> (res: Result<Vec<u8>, ZipEntryError>)
    ensures
        match res {
            Ok(b) => zip_entry_found(archive@, index as int) && zip_entry_data(archive@, index as int) == Some(b@),
            Err(ZipEntryError::Entry(_)) => !zip_entry_found(archive@, index as int)
                && zip_entry_data(archive@, index as int) is None,
            Err(ZipEntryError::Read(_)) => zip_entry_found(archive@, index as int)
                && zip_entry_data(archive@, index as int) is None,
        },
{
    let mut a = zip::ZipArchive::new(std::io::Cursor::new(archive)).map_err(ZipEntryError::Entry)?;
    let mut entry = a.by_index(index).map_err(ZipEntryError::Entry)?;
    let mut buf = Vec::new();
    match entry.read_to_end(&mut buf) {
        Ok(_) => Ok(buf),
        Err(e) => Err(ZipEntryError::Read(e)),
    }
}

} // verus!
