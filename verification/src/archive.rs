//! Rules on the names of files: which directory entries are archives, which
//! archive entries are images, and which image becomes a cover.
use vstd::prelude::*;

use crate::outside::{decoded_samples, list_zip_entries, load_image, read_zip_entry, to_lowercase, unicode_lowercase, zip_entry_data, zip_entry_found, zip_entry_names};
use crate::text::{chars_of, ends_with, option_views, seq_ends_with, seq_le, seq_lt, str_less, lemma_lt_asymmetric, lemma_lt_total, lemma_lt_transitive, lemma_lt_irreflexive};

verus! {

/// Position of the last `.` in `name`, or -1 where there is none.
pub open spec fn last_dot(name: Seq<char>) -> int
    decreases name.len(),
{
    if name.len() == 0 {
        -1
    } else if name.last() == '.' {
        name.len() - 1
    } else {
        last_dot(name.drop_last())
    }
}

/// The extension of a file name, as `std::path::Path::extension` defines it:
/// none for `..`, none without a `.`, none where the only `.` is the first
/// character, and otherwise what follows the last `.`.
pub open spec fn path_extension(name: Seq<char>) -> Option<Seq<char>> {
    if name == seq!['.', '.'] || last_dot(name) <= 0 {
        None
    } else {
        Some(name.subrange(last_dot(name) + 1, name.len() as int))
    }
}

/// The file name has the extension `zip` (case-sensitive).
pub open spec fn is_zip_name(name: Seq<char>) -> bool {
    path_extension(name) == Some(seq!['z', 'i', 'p'])
}

/// The name ends with `.png`, `.jpg` or `.jpeg` (case-sensitive).
pub open spec fn has_image_suffix_spec(name: Seq<char>) -> bool {
    ||| seq_ends_with(name, seq!['.', 'p', 'n', 'g'])
    ||| seq_ends_with(name, seq!['.', 'j', 'p', 'g'])
    ||| seq_ends_with(name, seq!['.', 'j', 'p', 'e', 'g'])
}

/// Position of the last `.` of the characters.
fn find_last_dot(c: &Vec<char>) -> (res: Option<usize>)
    ensures
        match res {
            Some(i) => i == last_dot(c@) && i < c@.len(),
            None => last_dot(c@) == -1,
        },
{
    let mut i: usize = c.len();
    assert(c@.take(i as int) =~= c@);
    while i > 0
        invariant
            i <= c@.len(),
            last_dot(c@) == last_dot(c@.take(i as int)),
        decreases i,
    {
        assert(c@.take(i as int).drop_last() =~= c@.take(i - 1));
        if c[i - 1] == '.' {
            return Some(i - 1);
        }
        i = i - 1;
    }
    None
}

/// Whether the file name has the extension `zip`.
pub fn has_zip_extension(name: &str) -> (res: bool)
    ensures
        res == is_zip_name(name@),
{
    let c = chars_of(name);
    if c.len() == 2 && c[0] == '.' && c[1] == '.' {
        assert(c@ =~= seq!['.', '.']);
        return false;
    }
    assert(c@ != seq!['.', '.']) by {
        if c@ == seq!['.', '.'] {
            assert(c@.len() == 2 && c@[0] == '.' && c@[1] == '.');
        }
    }
    match find_last_dot(&c) {
        None => false,
        Some(d) => {
            if d == 0 {
                return false;
            }
            let n = c.len();
            let r = n - d - 1 == 3 && c[d + 1] == 'z' && c[d + 2] == 'i' && c[d + 3] == 'p';
            proof {
                let ext = c@.subrange(d + 1, n as int);
                if r {
                    assert(ext =~= seq!['z', 'i', 'p']);
                } else if ext.len() == 3 {
                    assert(ext[0] == c@[d + 1] && ext[1] == c@[d + 2] && ext[2] == c@[d + 3]);
                }
            }
            r
        },
    }
}

/// Whether the name ends with `.png`, `.jpg` or `.jpeg` (case-sensitive).
pub fn has_image_suffix(name: &str) -> (res: bool)
    ensures
        res == has_image_suffix_spec(name@),
{
    proof {
        reveal_strlit(".png");
        reveal_strlit(".jpg");
        reveal_strlit(".jpeg");
        assert(".png"@ =~= seq!['.', 'p', 'n', 'g']);
        assert(".jpg"@ =~= seq!['.', 'j', 'p', 'g']);
        assert(".jpeg"@ =~= seq!['.', 'j', 'p', 'e', 'g']);
    }
    let c = chars_of(name);
    ends_with(&c, ".png") || ends_with(&c, ".jpg") || ends_with(&c, ".jpeg")
}

/// An entry of a directory listing: its file name and whether it is a
/// regular file.
pub struct DirEntry {
    pub name: String,
    pub is_file: bool,
}

/// The names of the archives of a directory listing: the regular files
/// whose extension is `zip`, in listing order.
pub open spec fn zip_names(entries: Seq<DirEntry>) -> Seq<Seq<char>>
    decreases entries.len(),
{
    if entries.len() == 0 {
        Seq::empty()
    } else {
        let rest = zip_names(entries.drop_last());
        let e = entries.last();
        if e.is_file && is_zip_name(e.name@) {
            rest.push(e.name@)
        } else {
            rest
        }
    }
}

/// The archive file names of a directory listing, in listing order.
pub fn zip_file_names(entries: &Vec<DirEntry>) -> (res: Vec<String>)
    ensures
        res@.map_values(|s: String| s@) == zip_names(entries@),
{
    let mut res: Vec<String> = Vec::new();
    let n = entries.len();
    let mut i: usize = 0;
    while i < n
        invariant
            n == entries@.len(),
            i <= n,
            res@.map_values(|s: String| s@) == zip_names(entries@.take(i as int)),
        decreases n - i,
    {
        assert(entries@.take(i + 1).drop_last() =~= entries@.take(i as int));
        let e = &entries[i];
        if e.is_file && has_zip_extension(e.name.as_str()) {
            let ghost before = res@;
            res.push(e.name.clone());
            assert(res@.map_values(|s: String| s@) =~= before.map_values(|s: String| s@).push(e.name@));
        }
        i = i + 1;
    }
    assert(entries@.take(n as int) =~= entries@);
    res
}

/// The names of `names` lower-cased, entry by entry.
pub open spec fn lowered(names: Seq<Option<Seq<char>>>) -> Seq<Option<Seq<char>>> {
    names.map_values(|o: Option<Seq<char>>| match o {
        Some(x) => Some(unicode_lowercase(x)),
        None => None,
    })
}

/// Entry `i` is a readable cover candidate, given the lower-cased forms
/// `lower` of the names: its lower-cased name ends with an image suffix.
pub open spec fn is_candidate_with(names: Seq<Option<Seq<char>>>, lower: Seq<Option<Seq<char>>>, i: int) -> bool {
    &&& 0 <= i < names.len()
    &&& i < lower.len()
    &&& names[i] is Some
    &&& lower[i] is Some
    &&& has_image_suffix_spec(lower[i]->0)
}

/// `i` is the cover, given the lower-cased names: a candidate whose name is
/// least, the earliest of equal least names.
pub open spec fn is_choice_with(names: Seq<Option<Seq<char>>>, lower: Seq<Option<Seq<char>>>, i: int) -> bool {
    &&& is_candidate_with(names, lower, i)
    &&& forall|j: int| #[trigger] is_candidate_with(names, lower, j) ==> {
        &&& seq_le(names[i]->0, names[j]->0)
        &&& (names[j]->0 == names[i]->0 ==> i <= j)
    }
}

/// Entry `i` of an archive with entry names `names` can be its cover.
pub open spec fn is_candidate_view(names: Seq<Option<Seq<char>>>, i: int) -> bool {
    is_candidate_with(names, lowered(names), i)
}

/// Entry `i` is the cover of an archive with entry names `names`.
pub open spec fn is_cover_choice_view(names: Seq<Option<Seq<char>>>, i: int) -> bool {
    is_choice_with(names, lowered(names), i)
}

/// The names lower-cased with `str::to_lowercase`, entry by entry.
pub fn lowercase_names(names: &Vec<Option<String>>) -> (res: Vec<Option<String>>)
    ensures
        option_views(res@) == lowered(option_views(names@)),
{
    let mut res: Vec<Option<String>> = Vec::new();
    let n = names.len();
    let mut i: usize = 0;
    while i < n
        invariant
            n == names@.len(),
            i <= n,
            res@.len() == i,
            forall|j: int| 0 <= j < i ==> #[trigger] option_views(res@)[j] == lowered(option_views(names@))[j],
        decreases n - i,
    {
        let l = match &names[i] {
            Some(name) => Some(to_lowercase(name.as_str())),
            None => None,
        };
        let ghost before = res@;
        res.push(l);
        proof {
            assert forall|j: int| 0 <= j < i + 1 implies #[trigger] option_views(res@)[j] == lowered(option_views(names@))[j] by {
                if j < i {
                    assert(res@[j] == before[j]);
                    assert(option_views(before)[j] == lowered(option_views(names@))[j]);
                }
            }
        }
        i = i + 1;
    }
    assert(option_views(res@) =~= lowered(option_views(names@)));
    res
}

/// Picks the cover among entry names given with their lower-cased forms
/// (`None` for an entry that could not be read): among the entries whose
/// lower-cased name ends with `.jpg`, `.jpeg` or `.png`, the one with the
/// least name, and of equal names the first; `None` when there is no such
/// entry.
pub fn cover_index_given_lowercase(names: &Vec<Option<String>>, lower: &Vec<Option<String>>) -> (res: Option<usize>)
    ensures
        match res {
            Some(i) => is_choice_with(option_views(names@), option_views(lower@), i as int),
            None => forall|j: int| !is_candidate_with(option_views(names@), option_views(lower@), j),
        },
{
    let ghost nv = option_views(names@);
    let ghost lv = option_views(lower@);
    let n = names.len();
    let mut best: Option<usize> = None;
    let mut i: usize = 0;
    while i < n
        invariant
            n == names@.len(),
            nv == option_views(names@),
            lv == option_views(lower@),
            i <= n,
            match best {
                Some(b) => b < i && is_candidate_with(nv, lv, b as int) && forall|j: int|
                    0 <= j < i && #[trigger] is_candidate_with(nv, lv, j) ==> {
                        &&& seq_le(nv[b as int]->0, nv[j]->0)
                        &&& (nv[j]->0 == nv[b as int]->0 ==> b <= j)
                    },
                None => forall|j: int| 0 <= j < i ==> !#[trigger] is_candidate_with(nv, lv, j),
            },
        decreases n - i,
    {
        let candidate = match (&names[i], i < lower.len()) {
            (Some(_), true) => match &lower[i] {
                Some(l) => has_image_suffix(l.as_str()),
                None => false,
            },
            _ => false,
        };
        proof {
            assert(candidate == is_candidate_with(nv, lv, i as int));
        }
        if candidate {
            let name = match &names[i] {
                Some(x) => x,
                None => { proof { assert(false); } return None; },
            };
            proof {
                assert(nv[i as int]->0 == name@);
            }
            match best {
                None => {
                    proof {
                        lemma_lt_irreflexive(name@);
                    }
                    best = Some(i);
                },
                Some(b) => {
                    let better = match &names[b] {
                        Some(bn) => str_less(name.as_str(), bn.as_str()),
                        None => false,
                    };
                    let ghost bv = nv[b as int]->0;
                    if better {
                        proof {
                            lemma_lt_asymmetric(name@, bv);
                            assert forall|j: int|
                                0 <= j < i + 1 && #[trigger] is_candidate_with(nv, lv, j) implies {
                                &&& seq_le(name@, nv[j]->0)
                                &&& (nv[j]->0 == name@ ==> i <= j)
                            } by {
                                if j < i {
                                    let jv = nv[j]->0;
                                    if seq_lt(jv, name@) {
                                        lemma_lt_total(bv, jv);
                                        if seq_lt(bv, jv) {
                                            lemma_lt_transitive(bv, jv, name@);
                                        }
                                    }
                                    if jv == name@ {
                                        lemma_lt_irreflexive(jv);
                                    }
                                } else {
                                    lemma_lt_irreflexive(name@);
                                }
                            }
                        }
                        best = Some(i);
                    }
                },
            }
        }
        i = i + 1;
    }
    best
}

/// Picks the cover of an archive from its entry names (`None` for an entry
/// that could not be read): among the entries whose name, lower-cased with
/// `str::to_lowercase`, ends with `.jpg`, `.jpeg` or `.png`, the one with
/// the least name, and of equal names the first; `None` when there is none.
pub fn cover_image_index(names: &Vec<Option<String>>) -> (res: Option<usize>)
    ensures
        match res {
            Some(i) => is_cover_choice_view(option_views(names@), i as int),
            None => forall|j: int| !is_candidate_view(option_views(names@), j),
        },
{
    let lower = lowercase_names(names);
    cover_index_given_lowercase(names, &lower)
}

/// There is at most one cover: two entries that both meet the cover rule
/// are the same entry.
pub proof fn lemma_cover_choice_is_unique(names: Seq<Option<Seq<char>>>, lower: Seq<Option<Seq<char>>>, i: int, j: int)
    requires
        is_choice_with(names, lower, i),
        is_choice_with(names, lower, j),
    ensures
        i == j,
{
    assert(is_candidate_with(names, lower, j));
    assert(is_candidate_with(names, lower, i));
    let a = names[i]->0;
    let b = names[j]->0;
    lemma_lt_total(a, b);
}

/// Whether an image of `width` by `height` already fits a square of
/// `max_size` and is used as its own thumbnail.
pub fn thumbnail_fits(width: u32, height: u32, max_size: u32) -> (res: bool)
    ensures
        res == (width <= max_size && height <= max_size),
{
    width <= max_size && height <= max_size
}

/// A decoded image as plain values: width, height, colour tag and samples
/// (the pixels row by row, each sample in native byte order). The colour
/// tags are 0 `L8`, 1 `La8`, 2 `Rgb8`, 3 `Rgba8`, 4 `L16`, 5 `La16`,
/// 6 `Rgb16`, 7 `Rgba16`, 8 `Rgb32F`, 9 `Rgba32F`, 255 any other.
pub struct DecodedImage {
    pub width: u32,
    pub height: u32,
    pub color: u8,
    pub samples: Vec<u8>,
}

/// Why an entry of an archive held in memory was not read: the archive or
/// the entry was not found, or reading its bytes failed.
pub enum ZipEntryError {
    Entry(zip::result::ZipError),
    Read(std::io::Error),
}

/// Why no cover image was had from an archive.
#[derive(Clone, Copy, Debug, PartialEq, Eq, Structural)]
pub enum CoverError {
    /// The bytes are not a zip archive the reader can open.
    InvalidZip,
    /// No entry's lower-cased name ends with `.jpg`, `.jpeg` or `.png`.
    NoImage,
    /// The cover entry's bytes could not be read.
    Unreadable,
    /// The cover entry's bytes are not an image the decoder knows.
    Undecodable,
}

/// Decodes the bytes of a cover entry.
pub fn decode_cover(bytes: &[u8]) -> (res: Result<DecodedImage, CoverError>)
    ensures
        match res {
            Ok(d) => decoded_samples(bytes@) == Some((d.width, d.height, d.color, d.samples@)),
            Err(e) => e == CoverError::Undecodable && decoded_samples(bytes@) is None,
        },
{
    match load_image(bytes) {
        Ok(img) => Ok(img),
        Err(_) => Err(CoverError::Undecodable),
    }
}

/// The archive opens, and entry `i` is its cover.
pub open spec fn is_cover_of(zip: Seq<u8>, i: int) -> bool {
    zip_entry_names(zip) matches Some(names) && is_cover_choice_view(names, i)
}

/// The archive opens and has no entry that can be a cover.
pub open spec fn has_no_cover(zip: Seq<u8>) -> bool {
    zip_entry_names(zip) matches Some(names) && forall|j: int| !is_candidate_view(names, j)
}

/// The archive opens and its cover entry is found, but its bytes cannot be
/// read.
pub open spec fn cover_unreadable(zip: Seq<u8>) -> bool {
    exists|i: int| is_cover_of(zip, i) && zip_entry_found(zip, i) && zip_entry_data(zip, i) is None
}

/// The archive opens, and its cover entry is read but not decoded.
pub open spec fn cover_undecodable(zip: Seq<u8>) -> bool {
    exists|i: int| #[trigger] is_cover_of(zip, i) && (zip_entry_data(zip, i) matches Some(b) && decoded_samples(b) is None)
}

/// The archive's cover entry decodes to `d`.
pub open spec fn cover_decodes_to(zip: Seq<u8>, d: (u32, u32, u8, Seq<u8>)) -> bool {
    exists|i: int| #[trigger] is_cover_of(zip, i) && (zip_entry_data(zip, i) matches Some(b) && decoded_samples(b) == Some(d))
}

/// Finds the cover entry of a zip archive held in memory and reads it:
/// its index and bytes.
pub fn cover_entry_bytes(zip_bytes: &[u8]) -> (res: Result<(usize, Vec<u8>), CoverError>)
    ensures
        zip_entry_names(zip_bytes@) is None <==> res == Err::<(usize, Vec<u8>), CoverError>(CoverError::InvalidZip),
        res matches Ok((i, b)) ==> is_cover_of(zip_bytes@, i as int) && zip_entry_data(zip_bytes@, i as int) == Some(b@),
        res == Err::<(usize, Vec<u8>), CoverError>(CoverError::NoImage) ==> has_no_cover(zip_bytes@),
        res == Err::<(usize, Vec<u8>), CoverError>(CoverError::Unreadable) ==> cover_unreadable(zip_bytes@),
        res != Err::<(usize, Vec<u8>), CoverError>(CoverError::Undecodable),
{
    let names = match list_zip_entries(zip_bytes) {
        Ok(v) => v,
        Err(_) => return Err(CoverError::InvalidZip),
    };
    match cover_image_index(&names) {
        None => Err(CoverError::NoImage),
        Some(i) => match read_zip_entry(zip_bytes, i) {
            Ok(b) => Ok((i, b)),
            Err(ZipEntryError::Entry(_)) => {
                proof {
                    // the listing found the cover entry, so finding it again cannot fail
                    assert(names@[i as int] is Some);
                    assert(zip_entry_found(zip_bytes@, i as int));
                    assert(false);
                }
                Err(CoverError::Unreadable)
            },
            Err(ZipEntryError::Read(_)) => {
                proof {
                    assert(is_cover_of(zip_bytes@, i as int) && zip_entry_found(zip_bytes@, i as int)
                        && zip_entry_data(zip_bytes@, i as int) is None);
                }
                Err(CoverError::Unreadable)
            },
        },
    }
}

/// The cover image of a zip archive held in memory: the entry that meets
/// the cover rule, read and decoded.
pub fn cover_image(zip_bytes: &[u8]) -> (res: Result<DecodedImage, CoverError>)
    ensures
        match res {
            Ok(d) => cover_decodes_to(zip_bytes@, (d.width, d.height, d.color, d.samples@)),
            Err(CoverError::InvalidZip) => zip_entry_names(zip_bytes@) is None,
            Err(CoverError::NoImage) => has_no_cover(zip_bytes@),
            Err(CoverError::Unreadable) => cover_unreadable(zip_bytes@),
            Err(CoverError::Undecodable) => cover_undecodable(zip_bytes@),
        },
{
    let (i, bytes) = cover_entry_bytes(zip_bytes)?;
    match decode_cover(bytes.as_slice()) {
        Ok(img) => {
            proof {
                assert(is_cover_of(zip_bytes@, i as int));
            }
            Ok(img)
        },
        Err(e) => {
            proof {
                assert(is_cover_of(zip_bytes@, i as int));
            }
            Err(e)
        },
    }
}

/// There is at most one cover entry, so the outcomes of `cover_image` are
/// determined by the archive's bytes: the cover rule picks one entry.
pub proof fn lemma_cover_entry_is_unique(zip: Seq<u8>, i: int, j: int)
    requires
        is_cover_of(zip, i),
        is_cover_of(zip, j),
    ensures
        i == j,
{
    let names = zip_entry_names(zip)->0;
    lemma_cover_choice_is_unique(names, lowered(names), i, j);
}

} // verus!
